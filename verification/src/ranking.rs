//! Listing spanning trees of a query graph, the cheapest one first, by exchanging one edge at
//! a time.
use crate::connect::{acyclic, acyclic_with_one_more, ids_of, linked};
use crate::order::sorted;
use crate::query::{contains_id, EdgeId, EdgeView, GraphView, QueryGraph, VertexId};
use crate::spanning::{
    ascending, ascending_is_unique, cheapest, cheapest_spans, is_trail, lemma_cost_of_part,
    lemma_sorted_ids, sort_ids, sum_cost, total_cost, trail_is_the_only_way, CandidateTree,
};
use crate::text::Relation;
use crate::trees::{all_edges, is_tree_of, subgraph};
use std::collections::HashMap;
use vstd::prelude::*;

verus! {

/// The lexicographic order of sequences of ids.
pub open spec fn ids_relation(a: Seq<EdgeId>, b: Seq<EdgeId>) -> Relation
    decreases a.len(),
{
    if a.len() == 0 {
        if b.len() == 0 {
            Relation::Same
        } else {
            Relation::Before
        }
    } else if b.len() == 0 {
        Relation::After
    } else if a[0] < b[0] {
        Relation::Before
    } else if a[0] > b[0] {
        Relation::After
    } else {
        ids_relation(a.drop_first(), b.drop_first())
    }
}

proof fn lemma_ids_flip(a: Seq<EdgeId>, b: Seq<EdgeId>)
    ensures
        ids_relation(b, a) == ids_relation(a, b).flipped(),
    decreases a.len(),
{
    if a.len() > 0 && b.len() > 0 {
        lemma_ids_flip(a.drop_first(), b.drop_first());
    }
}

proof fn lemma_ids_transitive(a: Seq<EdgeId>, b: Seq<EdgeId>, c: Seq<EdgeId>)
    requires
        ids_relation(a, b) != Relation::After,
        ids_relation(b, c) != Relation::After,
    ensures
        ids_relation(a, c) != Relation::After,
    decreases a.len(),
{
    if a.len() > 0 && b.len() > 0 && c.len() > 0 {
        if a[0] == b[0] && b[0] == c[0] {
            lemma_ids_transitive(a.drop_first(), b.drop_first(), c.drop_first());
        }
    }
}

/// Decides the order of two sequences of ids.
fn relate_ids(a: &Vec<EdgeId>, b: &Vec<EdgeId>) -> (result: Relation)
    ensures
        result == ids_relation(a@, b@),
{
    let mut i: usize = 0;
    assert(a@.skip(0) =~= a@);
    assert(b@.skip(0) =~= b@);
    loop
        invariant
            i <= a@.len(),
            i <= b@.len(),
            ids_relation(a@, b@) == ids_relation(a@.skip(i as int), b@.skip(i as int)),
        decreases a.len() - i,
    {
        if i == a.len() {
            if i == b.len() {
                return Relation::Same;
            }
            return Relation::Before;
        }
        if i == b.len() {
            return Relation::After;
        }
        assert(a@.skip(i as int).drop_first() =~= a@.skip(i + 1));
        assert(b@.skip(i as int).drop_first() =~= b@.skip(i + 1));
        if a[i] < b[i] {
            return Relation::Before;
        }
        if a[i] > b[i] {
            return Relation::After;
        }
        i = i + 1;
    }
}

/// Whether a tree is listed before another one: the dearer one first, and of two that cost the
/// same that whose ids come first.
pub open spec fn listed_before(
    cardinalities: Map<EdgeId, u64>,
    a: Seq<EdgeId>,
    b: Seq<EdgeId>,
) -> bool {
    total_cost(cardinalities, a) > total_cost(cardinalities, b) || (total_cost(cardinalities, a)
        == total_cost(cardinalities, b) && ids_relation(a, b) != Relation::After)
}

/// Whether `other` is what the tree becomes when the edge at a position is taken in. Where the
/// tree joins the ends of that edge already, one of its own edges is given up.
pub open spec fn takes_in(
    edges: Seq<EdgeView>,
    tree: Set<EdgeId>,
    other: Set<EdgeId>,
    k: int,
) -> bool {
    &&& !tree.contains(edges[k].id)
    &&& if linked(edges, tree, edges[k].src, edges[k].dst) {
        exists|id: EdgeId|
            tree.contains(id) && other == #[trigger] tree.remove(id).insert(edges[k].id)
    } else {
        other == tree.insert(edges[k].id)
    }
}

/// Whether a tree is one exchange of an edge away.
#[verifier::opaque]
pub open spec fn is_exchange(edges: Seq<EdgeView>, tree: Set<EdgeId>, other: Set<EdgeId>) -> bool {
    &&& is_tree_of(edges, other)
    &&& exists|k: int| 0 <= k < edges.len() && #[trigger] takes_in(edges, tree, other, k)
}

/// Whether a tree is one exchange away from one of some trees.
#[verifier::opaque]
pub open spec fn is_near(edges: Seq<EdgeView>, trees: Seq<Seq<EdgeId>>, other: Seq<EdgeId>) -> bool {
    exists|j: int|
        0 <= j < trees.len() && is_exchange(edges, (#[trigger] trees[j]).to_set(), other.to_set())
}

/// Whether a list of trees, each as its ids in ascending order, starts with the cheapest one
/// and goes on with the dearest of those one exchange away from a tree listed before, as far
/// as `k` trees or as long as there is one.
pub open spec fn is_ranking(
    graph: GraphView,
    cardinalities: Map<EdgeId, u64>,
    trees: Seq<Seq<EdgeId>>,
    k: nat,
) -> bool {
    let edges = graph.edges;
    &&& trees.len() <= k
    &&& trees.len() == 0 <==> k == 0 || cheapest(edges, cardinalities) == Set::<EdgeId>::empty()
    &&& trees.len() > 0 ==> trees[0].to_set() == cheapest(edges, cardinalities)
    &&& forall|i: int| 0 <= i < trees.len() ==> ascending(#[trigger] trees[i])
    &&& trees.no_duplicates()
    &&& forall|i: int|
        1 <= i < trees.len() ==> is_near(edges, trees.take(i), #[trigger] trees[i])
    &&& forall|i: int, other: Seq<EdgeId>|
        #![trigger trees[i], is_near(edges, trees.take(i), other)]
        1 <= i < trees.len() && ascending(other) && is_near(edges, trees.take(i), other)
            && !trees.take(i).contains(other) ==> listed_before(cardinalities, trees[i], other)
    &&& trees.len() < k ==> forall|other: Seq<EdgeId>|
        #![trigger is_near(edges, trees, other)]
        ascending(other) && is_near(edges, trees, other) ==> trees.contains(other)
}

/// The ids of candidates.
pub open spec fn ids_in(trees: Seq<CandidateTree>) -> Seq<Seq<EdgeId>> {
    trees.map_values(|t: CandidateTree| t.edge_ids@)
}

/// What holds of every candidate.
spec fn is_candidate(edges: Seq<EdgeView>, cardinalities: Map<EdgeId, u64>, t: CandidateTree) -> bool {
    &&& ascending(t.edge_ids@)
    &&& t.edge_ids@.no_duplicates()
    &&& all_edges(edges, t.edge_ids@)
    &&& acyclic(edges, t.edge_ids@.to_set())
    &&& t.total_score == total_cost(cardinalities, t.edge_ids@)
}

spec fn are_candidates(
    edges: Seq<EdgeView>,
    cardinalities: Map<EdgeId, u64>,
    trees: Seq<CandidateTree>,
) -> bool {
    forall|i: int| 0 <= i < trees.len() ==> is_candidate(edges, cardinalities, #[trigger] trees[i])
}

/// Whether ids are those of a candidate.
fn is_listed(trees: &Vec<CandidateTree>, ids: &Vec<EdgeId>) -> (result: bool)
    ensures
        result == ids_in(trees@).contains(ids@),
{
    let mut i: usize = 0;
    while i < trees.len()
        invariant
            i <= trees@.len(),
            forall|j: int| 0 <= j < i ==> #[trigger] ids_in(trees@)[j] != ids@,
        decreases trees.len() - i,
    {
        if same_ids(&trees[i].edge_ids, ids) {
            assert(ids_in(trees@)[i as int] == ids@);
            return true;
        }
        assert(ids_in(trees@)[i as int] != ids@);
        i = i + 1;
    }
    false
}

/// Whether two lists of ids are equal.
pub fn same_ids(a: &Vec<u64>, b: &Vec<u64>) -> (result: bool)
    ensures
        result == (a@ == b@),
{
    if a.len() != b.len() {
        return false;
    }
    let mut i: usize = 0;
    while i < a.len()
        invariant
            i <= a@.len(),
            a@.len() == b@.len(),
            forall|j: int| 0 <= j < i ==> a@[j] == b@[j],
        decreases a.len() - i,
    {
        if a[i] != b[i] {
            return false;
        }
        i = i + 1;
    }
    assert(a@ =~= b@);
    true
}

/// The ids of a tree with one more, and without another one where one is named.
fn exchanged(tree: &Vec<EdgeId>, given_up: Option<EdgeId>, taken: EdgeId) -> (result: Vec<EdgeId>)
    requires
        tree@.no_duplicates(),
        !tree@.contains(taken),
    ensures
        ascending(result@),
        result@.no_duplicates(),
        result@.to_set() == (match given_up {
            Some(id) => tree@.to_set().remove(id).insert(taken),
            None => tree@.to_set().insert(taken),
        }),
{
    let mut ids: Vec<EdgeId> = Vec::new();
    let mut i: usize = 0;
    while i < tree.len()
        invariant
            i <= tree@.len(),
            tree@.no_duplicates(),
            !tree@.contains(taken),
            ids@.no_duplicates(),
            !ids@.contains(taken),
            forall|x: EdgeId| #[trigger]
                ids@.contains(x) <==> tree@.take(i as int).contains(x) && given_up != Some(x),
        decreases tree.len() - i,
    {
        let ghost before = ids@;
        let id: EdgeId = tree[i];
        let keep: bool = match given_up {
            Some(x) => x != id,
            None => true,
        };
        proof {
            assert(tree@.take(i + 1) =~= tree@.take(i as int).push(id));
            if tree@.take(i as int).contains(id) {
                let j = choose|j: int| 0 <= j < i && tree@.take(i as int)[j] == id;
                assert(tree@[j] != tree@[i as int]);
            }
            assert(tree@.contains(id));
            assert(!before.contains(id));
        }
        if keep {
            ids.push(id);
        }
        assert forall|x: EdgeId| #[trigger] ids@.contains(x) <==> tree@.take(i + 1).contains(x)
            && given_up != Some(x) by {
            if tree@.take(i + 1).contains(x) {
                let j = choose|j: int| 0 <= j < i + 1 && #[trigger] tree@.take(i + 1)[j] == x;
                if j < i {
                    assert(tree@.take(i as int)[j] == x);
                    assert(tree@.take(i as int).contains(x));
                }
            }
            if tree@.take(i as int).contains(x) {
                let j = choose|j: int| 0 <= j < i && #[trigger] tree@.take(i as int)[j] == x;
                assert(tree@.take(i + 1)[j] == x);
            }
            assert(tree@.take(i + 1)[i as int] == id);
            if before.contains(x) {
                let j = choose|j: int| 0 <= j < before.len() && before[j] == x;
                assert(ids@[j] == x);
            }
            if ids@.contains(x) && !before.contains(x) {
                let j = choose|j: int| 0 <= j < ids@.len() && ids@[j] == x;
                if j < before.len() {
                    assert(before[j] == x);
                }
            }
            if keep {
                assert(ids@[before.len() as int] == id);
            }
        }
        i = i + 1;
    }
    let ghost kept = ids@;
    ids.push(taken);
    proof {
        assert(tree@.take(tree@.len() as int) =~= tree@);
        kept.lemma_push_to_set_commute(taken);
        assert(kept.to_set() =~= (match given_up {
            Some(id) => tree@.to_set().remove(id),
            None => tree@.to_set(),
        })) by {
            assert forall|x: EdgeId| kept.to_set().contains(x) <==> (match given_up {
                Some(id) => tree@.to_set().remove(id),
                None => tree@.to_set(),
            }).contains(x) by {
                assert(kept.contains(x) <==> tree@.contains(x) && given_up != Some(x));
            }
        }
    }
    sort_ids(ids)
}

impl QueryGraph {
    /// Adds a candidate with the given ids, where they form a tree that is not listed yet.
    fn consider(
        &self,
        cardinalities: &HashMap<EdgeId, u64>,
        ids: Vec<EdgeId>,
        taken: &Vec<CandidateTree>,
        pending: &mut Vec<CandidateTree>,
    )
        requires
            self@.wf(),
            total_cost(cardinalities@, self@.edges.map_values(|e: EdgeView| e.id)) <= u64::MAX,
            ascending(ids@),
            ids@.no_duplicates(),
            all_edges(self@.edges, ids@),
            are_candidates(self@.edges, cardinalities@, old(pending)@),
        ensures
            are_candidates(self@.edges, cardinalities@, final(pending)@),
            ({
                let fresh = is_tree_of(self@.edges, ids@.to_set()) && !ids_in(taken@).contains(
                    ids@,
                ) && !ids_in(old(pending)@).contains(ids@);
                ids_in(final(pending)@) == (if fresh {
                    ids_in(old(pending)@).push(ids@)
                } else {
                    ids_in(old(pending)@)
                })
            }),
    {
        if is_listed(taken, &ids) || is_listed(pending, &ids) {
            return;
        }
        if self.is_tree(&ids) {
            proof {
                let all = self@.edges.map_values(|e: EdgeView| e.id);
                assert(ids@.to_set().subset_of(all.to_set())) by {
                    assert forall|x: EdgeId| ids@.to_set().contains(x) implies all.to_set().contains(
                        x,
                    ) by {
                        let i = choose|i: int| 0 <= i < ids@.len() && ids@[i] == x;
                        assert(ids_of(self@.edges).contains(ids@[i]));
                    }
                }
                lemma_cost_of_part(cardinalities@, ids@, all);
            }
            let total_score: u64 = sum_cost(cardinalities, &ids);
            pending.push(CandidateTree { edge_ids: ids, total_score });
            assert(ids_in(pending@) =~= ids_in(old(pending)@).push(ids@));
        }
    }
}

/// All ids of a tree with an edge taken in are ids of edges.
proof fn lemma_exchange_is_listed(
    edges: Seq<EdgeView>,
    tree: Seq<EdgeId>,
    k: int,
    result: Seq<EdgeId>,
)
    requires
        all_edges(edges, tree),
        0 <= k < edges.len(),
        result.to_set().subset_of(tree.to_set().insert(edges[k].id)),
    ensures
        all_edges(edges, result),
{
    assert forall|i: int| 0 <= i < result.len() implies ids_of(edges).contains(
        #[trigger] result[i],
    ) by {
        assert(result.contains(result[i]));
        assert(result.to_set().contains(result[i]));
        if result[i] == edges[k].id {
            let ids = edges.map_values(|e: EdgeView| e.id);
            assert(ids[k] == edges[k].id);
            assert(ids.contains(edges[k].id));
        } else {
            assert(tree.to_set().contains(result[i]));
            let j = choose|j: int| 0 <= j < tree.len() && tree[j] == result[i];
            assert(ids_of(edges).contains(tree[j]));
        }
    }
}

impl QueryGraph {
    /// Adds the trees that one edge, taken into a tree, gives.
    fn take_in(
        &self,
        cardinalities: &HashMap<EdgeId, u64>,
        tree: &CandidateTree,
        position: usize,
        taken: &Vec<CandidateTree>,
        pending: &mut Vec<CandidateTree>,
    )
        requires
            self@.wf(),
            total_cost(cardinalities@, self@.edges.map_values(|e: EdgeView| e.id)) <= u64::MAX,
            is_candidate(self@.edges, cardinalities@, *tree),
            position < self@.edges.len(),
            !tree.edge_ids@.to_set().contains(self@.edges[position as int].id),
            are_candidates(self@.edges, cardinalities@, old(pending)@),
        ensures
            are_candidates(self@.edges, cardinalities@, final(pending)@),
            extends(
                self@.edges,
                tree.edge_ids@.to_set(),
                ids_in(taken@),
                ids_in(old(pending)@),
                ids_in(final(pending)@),
            ),
            forall|other: Seq<EdgeId>|
                #![trigger ids_in(final(pending)@).contains(other)]
                ascending(other) && is_tree_of(self@.edges, other.to_set()) && takes_in(
                    self@.edges,
                    tree.edge_ids@.to_set(),
                    other.to_set(),
                    position as int,
                ) ==> ids_in(taken@).contains(other) || ids_in(final(pending)@).contains(other),
    {
        let ghost edges = self@.edges;
        let ghost set = tree.edge_ids@.to_set();
        let ghost p = position as int;
        let edge = &self.edges[position];
        assert(edge@ == edges[p]);
        match self.find_path_edges_in_tree(&tree.edge_ids, edge.src_vertex_id, edge.dst_vertex_id) {
            Some(path) => {
                let ghost walk = choose|walk: Seq<VertexId>| #[trigger]
                    is_trail(edges, set, walk, path@) && walk.first() == edge.src_vertex_id
                        && walk.last() == edge.dst_vertex_id;
                proof {
                    crate::spanning::lemma_trail_is_linked(edges, set, walk, path@);
                    assert(ids_in(pending@).take(ids_in(pending@).len() as int) =~= ids_in(
                        pending@,
                    ));
                }
                let mut i: usize = 0;
                while i < path.len()
                    invariant
                        self@.wf(),
                        edges == self@.edges,
                        set == tree.edge_ids@.to_set(),
                        total_cost(cardinalities@, edges.map_values(|e: EdgeView| e.id))
                            <= u64::MAX,
                        is_candidate(edges, cardinalities@, *tree),
                        p == position,
                        p < edges.len(),
                        edge@ == edges[p],
                        !set.contains(edges[p].id),
                        linked(edges, set, edges[p].src, edges[p].dst),
                        is_trail(edges, set, walk, path@),
                        i <= path@.len(),
                        are_candidates(edges, cardinalities@, pending@),
                        extends(
                            edges,
                            set,
                            ids_in(taken@),
                            ids_in(old(pending)@),
                            ids_in(pending@),
                        ),
                        forall|j: int, other: Seq<EdgeId>|
                            #![trigger path@[j], ids_in(pending@).contains(other)]
                            0 <= j < i && ascending(other) && is_tree_of(edges, other.to_set())
                                && other.to_set() == set.remove(path@[j]).insert(edges[p].id)
                                ==> ids_in(taken@).contains(other) || ids_in(pending@).contains(
                                other,
                            ),
                    decreases path.len() - i,
                {
                    let ghost before = pending@;
                    assert(set.contains(path@[i as int]));
                    let ids = exchanged(&tree.edge_ids, Some(path[i]), edge.id);
                    let ghost candidate = ids@;
                    proof {
                        lemma_exchange_is_listed(edges, tree.edge_ids@, p, ids@);
                        assert(takes_in(edges, set, ids@.to_set(), p));
                        lemma_exchange_at(edges, set, ids@.to_set(), p);
                    }
                    self.consider(cardinalities, ids, taken, pending);
                    proof {
                        lemma_extends_push(
                            edges,
                            set,
                            ids_in(taken@),
                            ids_in(old(pending)@),
                            ids_in(before),
                            ids_in(pending@),
                            candidate,
                        );
                        assert forall|j: int, other: Seq<EdgeId>|
                            #![trigger path@[j], ids_in(pending@).contains(other)]
                            0 <= j < i + 1 && ascending(other) && is_tree_of(edges, other.to_set())
                                && other.to_set() == set.remove(path@[j]).insert(
                                edges[p].id,
                            ) implies ids_in(taken@).contains(other) || ids_in(pending@).contains(
                            other,
                        ) by {
                            if j == i {
                                ascending_is_unique(other, candidate);
                                lemma_push_contains(ids_in(before), candidate, other);
                            } else if !ids_in(taken@).contains(other) {
                                assert(ids_in(before).contains(other));
                                lemma_push_contains(ids_in(before), candidate, other);
                            }
                        }
                    }
                    i = i + 1;
                }
                proof {
                    assert forall|other: Seq<EdgeId>|
                        #![trigger ids_in(pending@).contains(other)]
                        ascending(other) && is_tree_of(edges, other.to_set()) && takes_in(
                            edges,
                            set,
                            other.to_set(),
                            p,
                        ) implies ids_in(taken@).contains(other) || ids_in(pending@).contains(
                        other,
                    ) by {
                        let id = choose|id: EdgeId|
                            set.contains(id) && other.to_set() == #[trigger] set.remove(id).insert(
                                edges[p].id,
                            );
                        trail_is_the_only_way(edges, set, walk, path@, id);
                        if !path@.contains(id) {
                            lemma_acyclic_part(edges, set, id);
                            acyclic_with_one_more(edges, set.remove(id), p);
                        } else {
                            let j = choose|j: int| 0 <= j < path@.len() && path@[j] == id;
                            assert(path@[j] == id);
                        }
                    }
                }
            },
            None => {
                let ghost before = pending@;
                let ids = exchanged(&tree.edge_ids, None, edge.id);
                let ghost candidate = ids@;
                proof {
                    lemma_exchange_is_listed(edges, tree.edge_ids@, p, ids@);
                    assert(takes_in(edges, set, ids@.to_set(), p));
                    lemma_exchange_at(edges, set, ids@.to_set(), p);
                }
                self.consider(cardinalities, ids, taken, pending);
                proof {
                    lemma_extends_push(
                        edges,
                        set,
                        ids_in(taken@),
                        ids_in(before),
                        ids_in(before),
                        ids_in(pending@),
                        candidate,
                    );
                    assert forall|other: Seq<EdgeId>|
                        #![trigger ids_in(pending@).contains(other)]
                        ascending(other) && is_tree_of(edges, other.to_set()) && takes_in(
                            edges,
                            set,
                            other.to_set(),
                            p,
                        ) implies ids_in(taken@).contains(other) || ids_in(pending@).contains(
                        other,
                    ) by {
                        ascending_is_unique(other, candidate);
                        lemma_push_contains(ids_in(before), candidate, other);
                    }
                }
            },
        }
    }
}

/// A tree that takes an edge in is one exchange away.
proof fn lemma_exchange_at(edges: Seq<EdgeView>, tree: Set<EdgeId>, other: Set<EdgeId>, k: int)
    requires
        0 <= k < edges.len(),
        takes_in(edges, tree, other, k),
    ensures
        is_tree_of(edges, other) ==> is_exchange(edges, tree, other),
{
    reveal(is_exchange);
}

/// The edge that an exchange takes in.
proof fn lemma_exchange_position(edges: Seq<EdgeView>, tree: Set<EdgeId>, other: Set<EdgeId>) -> (k:
    int)
    requires
        is_exchange(edges, tree, other),
    ensures
        is_tree_of(edges, other),
        0 <= k < edges.len(),
        takes_in(edges, tree, other, k),
{
    reveal(is_exchange);
    choose|k: int| 0 <= k < edges.len() && #[trigger] takes_in(edges, tree, other, k)
}

proof fn lemma_acyclic_part(edges: Seq<EdgeView>, set: Set<EdgeId>, id: EdgeId)
    requires
        acyclic(edges, set),
    ensures
        acyclic(edges, set.remove(id)),
{
    crate::connect::acyclic_in_part(edges, set.remove(id), set);
}

proof fn lemma_push_contains(s: Seq<Seq<EdgeId>>, x: Seq<EdgeId>, y: Seq<EdgeId>)
    ensures
        s.push(x).contains(y) <==> s.contains(y) || x == y,
{
    if s.contains(y) {
        let i = choose|i: int| 0 <= i < s.len() && s[i] == y;
        assert(s.push(x)[i] == y);
    }
    assert(s.push(x)[s.len() as int] == x);
    if s.push(x).contains(y) {
        let i = choose|i: int| 0 <= i < s.len() + 1 && #[trigger] s.push(x)[i] == y;
        if i < s.len() {
            assert(s[i] == y);
        }
    }
}

/// Whether a list goes on from another one with trees that are one exchange away and are in
/// neither list.
spec fn extends(
    edges: Seq<EdgeView>,
    tree: Set<EdgeId>,
    taken: Seq<Seq<EdgeId>>,
    before: Seq<Seq<EdgeId>>,
    after: Seq<Seq<EdgeId>>,
) -> bool {
    &&& before.len() <= after.len()
    &&& after.take(before.len() as int) == before
    &&& forall|i: int|
        #![trigger after[i]]
        before.len() <= i < after.len() ==> is_exchange(edges, tree, after[i].to_set())
            && !taken.contains(after[i])
    &&& before.no_duplicates() ==> after.no_duplicates()
}

proof fn lemma_extends_push(
    edges: Seq<EdgeView>,
    tree: Set<EdgeId>,
    taken: Seq<Seq<EdgeId>>,
    start: Seq<Seq<EdgeId>>,
    before: Seq<Seq<EdgeId>>,
    after: Seq<Seq<EdgeId>>,
    candidate: Seq<EdgeId>,
)
    requires
        extends(edges, tree, taken, start, before) || start == before,
        is_tree_of(edges, candidate.to_set()) ==> is_exchange(edges, tree, candidate.to_set()),
        ({
            let fresh = is_tree_of(edges, candidate.to_set()) && !taken.contains(candidate)
                && !before.contains(candidate);
            after == (if fresh {
                before.push(candidate)
            } else {
                before
            })
        }),
    ensures
        extends(edges, tree, taken, start, after),
{
    if start == before {
        assert(before.take(before.len() as int) =~= before);
    }
    assert(after.take(start.len() as int) =~= before.take(start.len() as int));
    if start.no_duplicates() {
        assert(before.no_duplicates());
        assert forall|i: int, j: int|
            0 <= i < after.len() && 0 <= j < after.len() && i != j implies after[i] != after[j] by {
            if i < before.len() && j < before.len() {
                assert(before[i] != before[j]);
            } else if i < before.len() {
                assert(before.contains(before[i]));
            } else {
                assert(before.contains(before[j]));
            }
        }
    }
}

/// What holds of the trees taken so far and of those that wait.
spec fn is_listing(
    graph: GraphView,
    cardinalities: Map<EdgeId, u64>,
    taken: Seq<CandidateTree>,
    pending: Seq<CandidateTree>,
) -> bool {
    let edges = graph.edges;
    let trees = ids_in(taken);
    let waiting = ids_in(pending);
    &&& are_candidates(edges, cardinalities, taken)
    &&& are_candidates(edges, cardinalities, pending)
    &&& trees.no_duplicates()
    &&& waiting.no_duplicates()
    &&& forall|i: int| 0 <= i < waiting.len() ==> !trees.contains(#[trigger] waiting[i])
    &&& trees.len() > 0 ==> trees[0].to_set() == cheapest(edges, cardinalities)
    &&& trees.len() == 0 ==> waiting.len() == 1 && waiting[0].to_set() == cheapest(
        edges,
        cardinalities,
    )
    &&& trees.len() > 0 ==> forall|i: int|
        0 <= i < waiting.len() ==> is_near(edges, trees, #[trigger] waiting[i])
    &&& forall|i: int|
        1 <= i < trees.len() ==> is_near(edges, trees.take(i), #[trigger] trees[i])
    &&& forall|i: int, other: Seq<EdgeId>|
        #![trigger trees[i], is_near(edges, trees.take(i), other)]
        1 <= i < trees.len() && ascending(other) && is_near(edges, trees.take(i), other)
            && !trees.take(i).contains(other) ==> listed_before(cardinalities, trees[i], other)
}

/// Whether every tree that is near those taken is taken or waits.
spec fn is_closed(
    edges: Seq<EdgeView>,
    taken: Seq<CandidateTree>,
    pending: Seq<CandidateTree>,
) -> bool {
    forall|other: Seq<EdgeId>|
        #![trigger is_near(edges, ids_in(taken), other)]
        ascending(other) && is_near(edges, ids_in(taken), other) ==> ids_in(taken).contains(other)
            || ids_in(pending).contains(other)
}

/// The position of the candidate that is listed before all others.
fn find_first(cardinalities: &HashMap<EdgeId, u64>, pending: &Vec<CandidateTree>) -> (result: usize)
    requires
        pending@.len() > 0,
        forall|i: int|
            0 <= i < pending@.len() ==> (#[trigger] pending@[i]).total_score == total_cost(
                cardinalities@,
                pending@[i].edge_ids@,
            ),
    ensures
        result < pending@.len(),
        forall|i: int|
            0 <= i < pending@.len() ==> listed_before(
                cardinalities@,
                pending@[result as int].edge_ids@,
                (#[trigger] pending@[i]).edge_ids@,
            ),
{
    let mut best: usize = 0;
    let mut i: usize = 1;
    proof {
        lemma_ids_flip(pending@[0].edge_ids@, pending@[0].edge_ids@);
    }
    while i < pending.len()
        invariant
            best < i <= pending@.len(),
            forall|j: int|
                0 <= j < pending@.len() ==> (#[trigger] pending@[j]).total_score == total_cost(
                    cardinalities@,
                    pending@[j].edge_ids@,
                ),
            forall|j: int|
                0 <= j < i ==> listed_before(
                    cardinalities@,
                    pending@[best as int].edge_ids@,
                    (#[trigger] pending@[j]).edge_ids@,
                ),
        decreases pending.len() - i,
    {
        let ghost b = pending@[best as int].edge_ids@;
        let ghost c = pending@[i as int].edge_ids@;
        proof {
            lemma_ids_flip(b, c);
            lemma_ids_flip(c, c);
            assert(pending@[best as int].total_score == total_cost(cardinalities@, b));
            assert(pending@[i as int].total_score == total_cost(cardinalities@, c));
        }
        let better: bool = if pending[i].total_score != pending[best].total_score {
            pending[i].total_score > pending[best].total_score
        } else {
            match relate_ids(&pending[i].edge_ids, &pending[best].edge_ids) {
                Relation::Before => true,
                _ => false,
            }
        };
        if better {
            assert forall|j: int| 0 <= j < i + 1 implies listed_before(
                cardinalities@,
                c,
                (#[trigger] pending@[j]).edge_ids@,
            ) by {
                let d = pending@[j].edge_ids@;
                if j < i {
                    assert(listed_before(cardinalities@, b, d));
                    if total_cost(cardinalities@, c) == total_cost(cardinalities@, d) {
                        lemma_ids_transitive(c, b, d);
                    }
                }
            }
            best = i;
        }
        i = i + 1;
    }
    best
}

proof fn lemma_near_more(
    edges: Seq<EdgeView>,
    trees: Seq<Seq<EdgeId>>,
    last: Seq<EdgeId>,
    other: Seq<EdgeId>,
)
    ensures
        is_near(edges, trees.push(last), other) <==> is_near(edges, trees, other) || is_exchange(
            edges,
            last.to_set(),
            other.to_set(),
        ),
{
    reveal(is_near);
    let more = trees.push(last);
    if is_near(edges, trees, other) {
        let j = choose|j: int|
            0 <= j < trees.len() && is_exchange(edges, (#[trigger] trees[j]).to_set(), other.to_set());
        assert(is_exchange(edges, more[j].to_set(), other.to_set()));
    }
    if is_exchange(edges, last.to_set(), other.to_set()) {
        assert(is_exchange(edges, more[trees.len() as int].to_set(), other.to_set()));
    }
    if is_near(edges, more, other) {
        let j = choose|j: int|
            0 <= j < more.len() && is_exchange(edges, (#[trigger] more[j]).to_set(), other.to_set());
        if j < trees.len() {
            assert(is_exchange(edges, trees[j].to_set(), other.to_set()));
        }
    }
}

/// Moving the first of the waiting trees to those taken.
#[verifier::rlimit(30)]
proof fn lemma_take_first(
    graph: GraphView,
    cardinalities: Map<EdgeId, u64>,
    taken: Seq<CandidateTree>,
    pending: Seq<CandidateTree>,
    first: int,
    moved: CandidateTree,
)
    requires
        is_listing(graph, cardinalities, taken, pending),
        is_closed(graph.edges, taken, pending),
        0 <= first < pending.len(),
        moved.edge_ids@ == pending[first].edge_ids@,
        moved.total_score == pending[first].total_score,
        forall|i: int|
            0 <= i < pending.len() ==> listed_before(
                cardinalities,
                pending[first].edge_ids@,
                (#[trigger] pending[i]).edge_ids@,
            ),
    ensures
        is_listing(graph, cardinalities, taken.push(moved), pending.remove(first)),
        forall|other: Seq<EdgeId>|
            #![trigger is_near(graph.edges, ids_in(taken), other)]
            ascending(other) && is_near(graph.edges, ids_in(taken), other) ==> ids_in(
                taken.push(moved),
            ).contains(other) || ids_in(pending.remove(first)).contains(other),
{
    let edges = graph.edges;
    let trees = ids_in(taken);
    let waiting = ids_in(pending);
    let id = moved.edge_ids@;
    let more = taken.push(moved);
    let rest = pending.remove(first);
    let trees2 = ids_in(more);
    let waiting2 = ids_in(rest);
    assert(trees2 =~= trees.push(id));
    assert(waiting2 =~= waiting.remove(first));
    assert(waiting[first] == id);
    assert(!trees.contains(id));
    assert forall|i: int| 0 <= i < more.len() implies is_candidate(
        edges,
        cardinalities,
        #[trigger] more[i],
    ) by {
        if i < taken.len() {
            assert(is_candidate(edges, cardinalities, taken[i]));
        } else {
            assert(is_candidate(edges, cardinalities, pending[first]));
        }
    }
    assert forall|i: int| 0 <= i < rest.len() implies is_candidate(
        edges,
        cardinalities,
        #[trigger] rest[i],
    ) by {
        let k = if i < first { i } else { i + 1 };
        assert(is_candidate(edges, cardinalities, pending[k]));
    }
    assert(trees2.no_duplicates()) by {
        assert forall|i: int, j: int|
            0 <= i < trees2.len() && 0 <= j < trees2.len() && i != j implies trees2[i]
            != trees2[j] by {
            if i < trees.len() && j < trees.len() {
                assert(trees[i] != trees[j]);
            } else if i < trees.len() {
                assert(trees.contains(trees[i]));
            } else {
                assert(trees.contains(trees[j]));
            }
        }
    }
    assert forall|i: int, j: int|
        0 <= i < waiting2.len() && 0 <= j < waiting2.len() && i != j implies waiting2[i]
        != waiting2[j] by {
        let a = if i < first { i } else { i + 1 };
        let b = if j < first { j } else { j + 1 };
        assert(waiting[a] != waiting[b]);
    }
    assert forall|i: int| 0 <= i < waiting2.len() implies !trees2.contains(
        #[trigger] waiting2[i],
    ) by {
        let a = if i < first { i } else { i + 1 };
        assert(!trees.contains(waiting[a]));
        assert(waiting[a] != waiting[first]);
        lemma_push_contains(trees, id, waiting2[i]);
    }
    assert forall|i: int| 1 <= i < trees2.len() implies is_near(
        edges,
        trees2.take(i),
        #[trigger] trees2[i],
    ) by {
        assert(trees2.take(i) =~= trees.take(i));
        if i < trees.len() {
            assert(is_near(edges, trees.take(i), trees[i]));
        } else {
            assert(trees.take(i) =~= trees);
            assert(is_near(edges, trees, waiting[first]));
        }
    }
    assert forall|i: int, other: Seq<EdgeId>|
        #![trigger trees2[i], is_near(edges, trees2.take(i), other)]
        1 <= i < trees2.len() && ascending(other) && is_near(edges, trees2.take(i), other)
            && !trees2.take(i).contains(other) implies listed_before(
        cardinalities,
        trees2[i],
        other,
    ) by {
        assert(trees2.take(i) =~= trees.take(i));
        if i < trees.len() {
            assert(is_near(edges, trees.take(i), other));
            assert(trees[i] == trees2[i]);
        } else {
            assert(trees.take(i) =~= trees);
            assert(is_near(edges, trees, other));
            assert(waiting.contains(other));
            let k = choose|k: int| 0 <= k < waiting.len() && waiting[k] == other;
            assert(pending[k].edge_ids@ == other);
        }
    }
    assert forall|other: Seq<EdgeId>|
        #![trigger is_near(graph.edges, ids_in(taken), other)]
        ascending(other) && is_near(graph.edges, ids_in(taken), other) implies trees2.contains(other)
        || waiting2.contains(other) by {
        lemma_push_contains(trees, id, other);
        if waiting.contains(other) && other != id {
            let k = choose|k: int| 0 <= k < waiting.len() && waiting[k] == other;
            let a = if k < first { k } else { k - 1 };
            assert(waiting2[a] == other);
        }
    }
    assert forall|i: int| 0 <= i < waiting2.len() implies is_near(
        edges,
        trees2,
        #[trigger] waiting2[i],
    ) by {
        let a = if i < first { i } else { i + 1 };
        lemma_near_more(edges, trees, id, waiting2[i]);
        if trees.len() > 0 {
            assert(is_near(edges, trees, waiting[a]));
        }
    }
}

impl QueryGraph {
    /// Adds the trees that are one exchange away from the tree taken last.
    #[verifier::rlimit(100)]
    fn expand(
        &self,
        cardinalities: &HashMap<EdgeId, u64>,
        taken: &Vec<CandidateTree>,
        pending: &mut Vec<CandidateTree>,
    )
        requires
            self@.wf(),
            total_cost(cardinalities@, self@.edges.map_values(|e: EdgeView| e.id)) <= u64::MAX,
            taken@.len() > 0,
            are_candidates(self@.edges, cardinalities@, taken@),
            are_candidates(self@.edges, cardinalities@, old(pending)@),
        ensures
            are_candidates(self@.edges, cardinalities@, final(pending)@),
            extends(
                self@.edges,
                taken@.last().edge_ids@.to_set(),
                ids_in(taken@),
                ids_in(old(pending)@),
                ids_in(final(pending)@),
            ),
            forall|other: Seq<EdgeId>|
                #![trigger ids_in(final(pending)@).contains(other)]
                ascending(other) && is_exchange(
                    self@.edges,
                    taken@.last().edge_ids@.to_set(),
                    other.to_set(),
                ) ==> ids_in(taken@).contains(other) || ids_in(final(pending)@).contains(other),
    {
        let ghost edges = self@.edges;
        let tree = &taken[taken.len() - 1];
        let ghost set = tree.edge_ids@.to_set();
        let mut k: usize = 0;
        assert(is_candidate(edges, cardinalities@, taken@[taken@.len() - 1]));
        assert(ids_in(pending@).take(ids_in(pending@).len() as int) =~= ids_in(pending@));
        while k < self.edges.len()
            invariant
                self@.wf(),
                edges == self@.edges,
                edges.len() == self.edges@.len(),
                set == tree.edge_ids@.to_set(),
                total_cost(cardinalities@, edges.map_values(|e: EdgeView| e.id)) <= u64::MAX,
                is_candidate(edges, cardinalities@, *tree),
                k <= edges.len(),
                are_candidates(edges, cardinalities@, pending@),
                extends(edges, set, ids_in(taken@), ids_in(old(pending)@), ids_in(pending@)),
                forall|m: int, other: Seq<EdgeId>|
                    #![trigger takes_in(edges, set, other.to_set(), m)]
                    0 <= m < k && ascending(other) && is_tree_of(edges, other.to_set())
                        && takes_in(edges, set, other.to_set(), m) ==> ids_in(taken@).contains(
                        other,
                    ) || ids_in(pending@).contains(other),
            decreases self.edges.len() - k,
        {
            let ghost before = pending@;
            let id: EdgeId = self.edges[k].id;
            assert(id == edges[k as int].id);
            if !contains_id(&tree.edge_ids, id) {
                self.take_in(cardinalities, tree, k, taken, pending);
                proof {
                    lemma_extends_chain(
                        edges,
                        set,
                        ids_in(taken@),
                        ids_in(old(pending)@),
                        ids_in(before),
                        ids_in(pending@),
                    );
                }
            } else {
                assert(set.contains(id));
            }
            assert forall|m: int, other: Seq<EdgeId>|
                #![trigger takes_in(edges, set, other.to_set(), m)]
                0 <= m < k + 1 && ascending(other) && is_tree_of(edges, other.to_set()) && takes_in(
                    edges,
                    set,
                    other.to_set(),
                    m,
                ) implies ids_in(taken@).contains(other) || ids_in(pending@).contains(other) by {
                if m < k && ids_in(before).contains(other) {
                    let j = choose|j: int| 0 <= j < ids_in(before).len() && ids_in(before)[j] == other;
                    assert(ids_in(pending@).take(ids_in(before).len() as int)[j] == other);
                    assert(ids_in(pending@)[j] == other);
                }
            }
            k = k + 1;
        }
        assert forall|other: Seq<EdgeId>|
            #![trigger ids_in(pending@).contains(other)]
            ascending(other) && is_exchange(edges, set, other.to_set()) implies ids_in(
            taken@,
        ).contains(other) || ids_in(pending@).contains(other) by {
            let m = lemma_exchange_position(edges, set, other.to_set());
            assert(takes_in(edges, set, other.to_set(), m));
        }
    }

    /// Spanning trees of the graph: the cheapest one, then, as far as `k` trees, the dearest of
    /// those that are one exchange of an edge away from one listed before.
    pub fn rank_trees(&self, cardinalities: &HashMap<EdgeId, u64>, k: usize) -> (result: Vec<
        CandidateTree,
    >)
        requires
            self@.wf(),
            total_cost(cardinalities@, self@.edges.map_values(|e: EdgeView| e.id)) <= u64::MAX,
        ensures
            is_ranking(self@, cardinalities@, ids_in(result@), k as nat),
            forall|i: int|
                0 <= i < result@.len() ==> (#[trigger] result@[i]).total_score == total_cost(
                    cardinalities@,
                    result@[i].edge_ids@,
                ) && result@[i].edge_ids@.no_duplicates(),
    {
        let ghost edges = self@.edges;
        let mut taken: Vec<CandidateTree> = Vec::new();
        if k == 0 {
            return taken;
        }
        let first = match self.build_best_spanning_tree(cardinalities) {
            None => {
                proof {
                    reveal(is_near);
                }
                return taken;
            },
            Some(tree) => tree,
        };
        let mut pending: Vec<CandidateTree> = Vec::new();
        proof {
            assert(edges.len() == self.edges.len());
            cheapest_spans(self@, cardinalities@);
            assert(all_edges(edges, first.edge_ids@)) by {
                assert forall|i: int| 0 <= i < first.edge_ids@.len() implies ids_of(edges).contains(
                    #[trigger] first.edge_ids@[i],
                ) by {
                    assert(first.edge_ids@.contains(first.edge_ids@[i]));
                    assert(first.edge_ids@.to_set().contains(first.edge_ids@[i]));
                }
            }
            assert(first.edge_ids@.to_set().contains(first.edge_ids@[0])) by {
                assert(first.edge_ids@.contains(first.edge_ids@[0]));
            }
        }
        pending.push(first);
        proof {
            assert(pending@[0] == first);
            assert(ids_in(pending@)[0] == first.edge_ids@);
            assert(ids_in(taken@).len() == 0);
            reveal(is_near);
            assert(is_listing(self@, cardinalities@, taken@, pending@));
            assert(is_closed(edges, taken@, pending@));
        }
        while taken.len() < k && pending.len() > 0
            invariant
                self@.wf(),
                edges == self@.edges,
                k > 0,
                total_cost(cardinalities@, edges.map_values(|e: EdgeView| e.id)) <= u64::MAX,
                taken@.len() <= k,
                taken@.len() == 0 ==> pending@.len() > 0,
                cheapest(edges, cardinalities@) != Set::<EdgeId>::empty(),
                is_listing(self@, cardinalities@, taken@, pending@),
                is_closed(edges, taken@, pending@),
            decreases k - taken.len(),
        {
            let ghost before = taken@;
            let ghost waiting = pending@;
            proof {
                assert forall|i: int| 0 <= i < pending@.len() implies (
                #[trigger] pending@[i]).total_score == total_cost(
                    cardinalities@,
                    pending@[i].edge_ids@,
                ) by {
                    assert(is_candidate(edges, cardinalities@, pending@[i]));
                }
            }
            let best: usize = find_first(cardinalities, &pending);
            let current = pending.remove(best);
            proof {
                lemma_take_first(
                    self@,
                    cardinalities@,
                    before,
                    waiting,
                    best as int,
                    current,
                );
            }
            taken.push(current);
            if taken.len() >= k {
                proof {
                    lemma_is_ranking(self@, cardinalities@, taken@, pending@, k as nat);
                }
                return taken;
            }
            let ghost rest = pending@;
            self.expand(cardinalities, &taken, &mut pending);
            proof {
                assert(taken@.drop_last() =~= before);
                lemma_expanded(self@, cardinalities@, before, taken@, rest, pending@);
            }
        }
        proof {
            assert(taken@.len() == k || pending@.len() == 0);
            assert(pending@.len() == 0 ==> ids_in(pending@).len() == 0);
            lemma_is_ranking(self@, cardinalities@, taken@, pending@, k as nat);
        }
        taken
    }
}

proof fn lemma_extends_chain(
    edges: Seq<EdgeView>,
    tree: Set<EdgeId>,
    taken: Seq<Seq<EdgeId>>,
    a: Seq<Seq<EdgeId>>,
    b: Seq<Seq<EdgeId>>,
    c: Seq<Seq<EdgeId>>,
)
    requires
        extends(edges, tree, taken, a, b),
        extends(edges, tree, taken, b, c),
    ensures
        extends(edges, tree, taken, a, c),
{
    assert(c.take(a.len() as int) =~= b.take(a.len() as int)) by {
        assert forall|i: int| 0 <= i < a.len() implies c[i] == b[i] by {
            assert(c.take(b.len() as int)[i] == b[i]);
        }
    }
    assert forall|i: int| #![trigger c[i]] a.len() <= i < c.len() implies is_exchange(
        edges,
        tree,
        c[i].to_set(),
    ) && !taken.contains(c[i]) by {
        if i < b.len() {
            assert(c.take(b.len() as int)[i] == b[i]);
            assert(is_exchange(edges, tree, b[i].to_set()));
        }
    }
}

proof fn lemma_expanded(
    graph: GraphView,
    cardinalities: Map<EdgeId, u64>,
    before: Seq<CandidateTree>,
    taken: Seq<CandidateTree>,
    rest: Seq<CandidateTree>,
    pending: Seq<CandidateTree>,
)
    requires
        taken.len() == before.len() + 1,
        taken.drop_last() == before,
        is_listing(graph, cardinalities, taken, rest),
        forall|other: Seq<EdgeId>|
            #![trigger is_near(graph.edges, ids_in(before), other)]
            ascending(other) && is_near(graph.edges, ids_in(before), other) ==> ids_in(
                taken,
            ).contains(other) || ids_in(rest).contains(other),
        are_candidates(graph.edges, cardinalities, pending),
        extends(
            graph.edges,
            taken.last().edge_ids@.to_set(),
            ids_in(taken),
            ids_in(rest),
            ids_in(pending),
        ),
        forall|other: Seq<EdgeId>|
            #![trigger ids_in(pending).contains(other)]
            ascending(other) && is_exchange(
                graph.edges,
                taken.last().edge_ids@.to_set(),
                other.to_set(),
            ) ==> ids_in(taken).contains(other) || ids_in(pending).contains(other),
    ensures
        is_listing(graph, cardinalities, taken, pending),
        is_closed(graph.edges, taken, pending),
{
    let edges = graph.edges;
    let trees = ids_in(taken);
    let old_waiting = ids_in(rest);
    let waiting = ids_in(pending);
    let last = taken.last().edge_ids@;
    assert(trees =~= ids_in(before).push(last));
    assert forall|i: int| 0 <= i < old_waiting.len() implies waiting[i] == old_waiting[i] by {
        assert(waiting.take(old_waiting.len() as int)[i] == old_waiting[i]);
    }
    assert forall|i: int| 0 <= i < waiting.len() implies !trees.contains(#[trigger] waiting[i]) by {
        if i < old_waiting.len() {
            assert(!trees.contains(old_waiting[i]));
        }
    }
    assert forall|i: int| 0 <= i < waiting.len() implies is_near(
        edges,
        trees,
        #[trigger] waiting[i],
    ) by {
        if i < old_waiting.len() {
            assert(is_near(edges, trees, old_waiting[i]));
        } else {
            lemma_near_more(edges, ids_in(before), last, waiting[i]);
        }
    }
    assert forall|other: Seq<EdgeId>|
        #![trigger is_near(edges, trees, other)]
        ascending(other) && is_near(edges, trees, other) implies trees.contains(other)
        || waiting.contains(other) by {
        lemma_near_more(edges, ids_in(before), last, other);
        if is_near(edges, ids_in(before), other) && old_waiting.contains(other) {
            let i = choose|i: int| 0 <= i < old_waiting.len() && old_waiting[i] == other;
            assert(waiting[i] == other);
        }
        if is_exchange(edges, last.to_set(), other.to_set()) {
            assert(trees.contains(other) || waiting.contains(other));
        }
    }
}

proof fn lemma_is_ranking(
    graph: GraphView,
    cardinalities: Map<EdgeId, u64>,
    taken: Seq<CandidateTree>,
    pending: Seq<CandidateTree>,
    k: nat,
)
    requires
        is_listing(graph, cardinalities, taken, pending),
        0 < taken.len() <= k,
        cheapest(graph.edges, cardinalities) != Set::<EdgeId>::empty(),
        taken.len() < k ==> is_closed(graph.edges, taken, pending) && pending.len() == 0,
    ensures
        is_ranking(graph, cardinalities, ids_in(taken), k),
        forall|i: int|
            0 <= i < taken.len() ==> (#[trigger] taken[i]).total_score == total_cost(
                cardinalities,
                taken[i].edge_ids@,
            ) && taken[i].edge_ids@.no_duplicates(),
{
    let trees = ids_in(taken);
    assert forall|i: int| 0 <= i < trees.len() implies ascending(#[trigger] trees[i]) by {
        assert(is_candidate(graph.edges, cardinalities, taken[i]));
    }
    assert forall|i: int| 0 <= i < taken.len() implies (#[trigger] taken[i]).total_score
        == total_cost(cardinalities, taken[i].edge_ids@) && taken[i].edge_ids@.no_duplicates() by {
        assert(is_candidate(graph.edges, cardinalities, taken[i]));
    }
    if taken.len() < k {
        assert forall|other: Seq<EdgeId>|
            #![trigger is_near(graph.edges, trees, other)]
            ascending(other) && is_near(graph.edges, trees, other) implies trees.contains(other) by {
            assert(ids_in(pending).len() == 0);
        }
    }
}

impl QueryGraph {
    /// The parts of the graph that its ranked spanning trees cut out, with their costs.
    pub fn build_k_best_trees(&self, cardinalities: &HashMap<EdgeId, u64>, k: usize) -> (result: Vec<
        (QueryGraph, u64),
    >)
        requires
            self@.wf(),
            total_cost(cardinalities@, self@.edges.map_values(|e: EdgeView| e.id)) <= u64::MAX,
        ensures
            exists|trees: Seq<Seq<EdgeId>>| #[trigger]
                is_ranking(self@, cardinalities@, trees, k as nat) && is_cut_out(
                    self@,
                    cardinalities@,
                    trees,
                    result@,
                ),
    {
        let trees = self.rank_trees(cardinalities, k);
        let mut result: Vec<(QueryGraph, u64)> = Vec::new();
        let mut i: usize = 0;
        while i < trees.len()
            invariant
                self@.wf(),
                i <= trees@.len(),
                result@.len() == i,
                is_ranking(self@, cardinalities@, ids_in(trees@), k as nat),
                forall|j: int|
                    0 <= j < trees@.len() ==> (#[trigger] trees@[j]).total_score == total_cost(
                        cardinalities@,
                        trees@[j].edge_ids@,
                    ) && trees@[j].edge_ids@.no_duplicates(),
                forall|j: int|
                    #![trigger result@[j]]
                    0 <= j < i ==> result@[j].0@ == subgraph(self@, ids_in(trees@)[j])
                        && result@[j].0@.wf() && result@[j].1 == total_cost(
                        cardinalities@,
                        ids_in(trees@)[j],
                    ),
            decreases trees.len() - i,
        {
            proof {
                lemma_sorted_ids(trees@[i as int].edge_ids@);
                assert(ascending(ids_in(trees@)[i as int]));
                ascending_is_unique(
                    trees@[i as int].edge_ids@,
                    sorted(trees@[i as int].edge_ids@),
                );
            }
            let part = self.build_subgraph_from_edges(&trees[i].edge_ids);
            result.push((part, trees[i].total_score));
            i = i + 1;
        }
        assert(is_cut_out(self@, cardinalities@, ids_in(trees@), result@));
        result
    }
}

/// Whether a list holds the parts of a graph with the edges of given trees, and their costs.
pub open spec fn is_cut_out(
    graph: GraphView,
    cardinalities: Map<EdgeId, u64>,
    trees: Seq<Seq<EdgeId>>,
    parts: Seq<(QueryGraph, u64)>,
) -> bool {
    &&& parts.len() == trees.len()
    &&& forall|i: int|
        #![trigger parts[i]]
        0 <= i < parts.len() ==> parts[i].0@ == subgraph(graph, trees[i]) && parts[i].0@.wf()
            && parts[i].1 == total_cost(cardinalities, trees[i])
}

} // verus!
