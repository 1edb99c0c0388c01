//! Disjoint sets of vertices, merged by rank, with path compression.
use std::collections::HashMap;
use vstd::prelude::*;

verus! {

/// A partition of vertices into disjoint sets. Every set is known by its root.
#[derive(Debug)]
pub struct UnionFind {
    /// The vertex that each vertex points to; a root points to itself.
    parent: HashMap<u64, u64>,
    /// A bound on the height below each vertex, used to merge the lower tree into the higher.
    rank: HashMap<u64, usize>,
}

/// The root that is reached from `x` by following parents.
spec fn root_from(parent: Map<u64, u64>, rank: Map<u64, usize>, x: u64) -> u64
    decreases usize::MAX - rank[x],
{
    if parent.contains_key(x) && parent[x] != x && rank[x] < rank[parent[x]] {
        root_from(parent, rank, parent[x])
    } else {
        x
    }
}

/// Parents and ranks belong to the same vertices, and ranks grow towards the roots.
spec fn forest(parent: Map<u64, u64>, rank: Map<u64, usize>) -> bool {
    &&& parent.dom().finite()
    &&& parent.dom() == rank.dom()
    &&& forall|x: u64|
        #![trigger parent[x]]
        parent.contains_key(x) ==> parent.contains_key(parent[x]) && (parent[x] != x ==> rank[x]
            < rank[parent[x]])
}

/// Every number below a rank is itself the rank of some vertex.
spec fn dense_ranks(rank: Map<u64, usize>) -> bool {
    forall|x: u64, k: usize|
        #![trigger rank.contains_key(x), has_rank(rank, k)]
        rank.contains_key(x) && k < rank[x] ==> has_rank(rank, k)
}

spec fn has_rank(rank: Map<u64, usize>, k: usize) -> bool {
    exists|y: u64| #[trigger] rank.contains_key(y) && rank[y] == k
}

/// The partition as a map from every vertex to the root of its set.
spec fn roots(parent: Map<u64, u64>, rank: Map<u64, usize>) -> Map<u64, u64> {
    Map::new(|x: u64| parent.contains_key(x), |x: u64| root_from(parent, rank, x))
}

impl View for UnionFind {
    /// Every vertex of the partition, with the root of its set.
    type V = Map<u64, u64>;

    closed spec fn view(&self) -> Map<u64, u64> {
        roots(self.parent@, self.rank@)
    }
}

/// The root of a vertex in a partition; a vertex that is in no set stands alone.
pub open spec fn root_in(sets: Map<u64, u64>, x: u64) -> u64 {
    if sets.contains_key(x) {
        sets[x]
    } else {
        x
    }
}

/// Whether two vertices are in one set.
pub open spec fn together(sets: Map<u64, u64>, x: u64, y: u64) -> bool {
    root_in(sets, x) == root_in(sets, y)
}

/// The partition with a set of its own for `x`, where `x` has none yet.
pub open spec fn with_vertex(sets: Map<u64, u64>, x: u64) -> Map<u64, u64> {
    sets.insert(x, root_in(sets, x))
}

/// A root is in the partition, and is its own root.
pub open spec fn rooted(sets: Map<u64, u64>) -> bool {
    forall|x: u64|
        #![trigger sets[x]]
        sets.contains_key(x) ==> sets.contains_key(sets[x]) && sets[sets[x]] == sets[x]
}

/// The partition in which all of the vertices with root `from` have root `to` instead.
pub open spec fn redirected(sets: Map<u64, u64>, from: u64, to: u64) -> Map<u64, u64> {
    sets.map_values(
        |root: u64|
            if root == from {
                to
            } else {
                root
            },
    )
}

proof fn lemma_root_in_forest(parent: Map<u64, u64>, rank: Map<u64, usize>, x: u64)
    requires
        forest(parent, rank),
        parent.contains_key(x),
    ensures
        parent.contains_key(root_from(parent, rank, x)),
        parent[root_from(parent, rank, x)] == root_from(parent, rank, x),
        root_from(parent, rank, root_from(parent, rank, x)) == root_from(parent, rank, x),
        rank[x] <= rank[root_from(parent, rank, x)],
        root_from(parent, rank, x) == x || rank[x] < rank[root_from(parent, rank, x)],
    decreases usize::MAX - rank[x],
{
    if parent[x] != x {
        lemma_root_in_forest(parent, rank, parent[x]);
    }
}

proof fn lemma_rooted(parent: Map<u64, u64>, rank: Map<u64, usize>)
    requires
        forest(parent, rank),
    ensures
        rooted(roots(parent, rank)),
{
    assert forall|x: u64|
        #![trigger roots(parent, rank)[x]]
        roots(parent, rank).contains_key(x) implies roots(
        parent,
        rank,
    ).contains_key(roots(parent, rank)[x]) && roots(parent, rank)[roots(parent, rank)[x]] == roots(
        parent,
        rank,
    )[x] by {
        lemma_root_in_forest(parent, rank, x);
    }
}

/// A vertex of its own changes no other root.
proof fn lemma_fresh_vertex(parent: Map<u64, u64>, rank: Map<u64, usize>, x: u64)
    requires
        forest(parent, rank),
        !parent.contains_key(x),
    ensures
        forest(parent.insert(x, x), rank.insert(x, 0)),
        roots(parent.insert(x, x), rank.insert(x, 0)) == with_vertex(roots(parent, rank), x),
{
    let p = parent.insert(x, x);
    let r = rank.insert(x, 0);
    assert forall|y: u64|
        #![trigger p[y]]
        p.contains_key(y) implies p.contains_key(p[y]) && (p[y] != y
        ==> r[y] < r[p[y]]) by {
        if y != x {
            assert(parent.contains_key(y));
        }
    }
    assert(p.dom() =~= r.dom());
    assert forall|y: u64| parent.contains_key(y) implies root_from(p, r, y) == root_from(
        parent,
        rank,
        y,
    ) by {
        lemma_fresh_root(parent, rank, x, y);
    }
    assert(roots(p, r) =~= with_vertex(roots(parent, rank), x));
}

proof fn lemma_fresh_root(parent: Map<u64, u64>, rank: Map<u64, usize>, x: u64, y: u64)
    requires
        forest(parent, rank),
        !parent.contains_key(x),
        parent.contains_key(y),
    ensures
        root_from(parent.insert(x, x), rank.insert(x, 0), y) == root_from(parent, rank, y),
    decreases usize::MAX - rank[y],
{
    if parent[y] != y {
        lemma_fresh_root(parent, rank, x, parent[y]);
    }
}

/// Hanging a vertex directly below its root keeps every root.
proof fn lemma_compression(parent: Map<u64, u64>, rank: Map<u64, usize>, x: u64)
    requires
        forest(parent, rank),
        parent.contains_key(x),
    ensures
        forest(parent.insert(x, root_from(parent, rank, x)), rank),
        roots(parent.insert(x, root_from(parent, rank, x)), rank) == roots(parent, rank),
{
    let root = root_from(parent, rank, x);
    let p = parent.insert(x, root);
    lemma_root_in_forest(parent, rank, x);
    assert(p.dom() =~= parent.dom());
    assert forall|y: u64|
        #![trigger p[y]]
        p.contains_key(y) implies p.contains_key(p[y]) && (p[y] != y
        ==> rank[y] < rank[p[y]]) by {
        assert(parent.contains_key(y));
    }
    assert forall|y: u64| parent.contains_key(y) implies root_from(p, rank, y) == root_from(
        parent,
        rank,
        y,
    ) by {
        lemma_compressed_root(parent, rank, x, y);
    }
    assert(roots(p, rank) =~= roots(parent, rank));
}

proof fn lemma_compressed_root(parent: Map<u64, u64>, rank: Map<u64, usize>, x: u64, y: u64)
    requires
        forest(parent, rank),
        parent.contains_key(x),
        parent.contains_key(y),
    ensures
        root_from(parent.insert(x, root_from(parent, rank, x)), rank, y) == root_from(
            parent,
            rank,
            y,
        ),
    decreases usize::MAX - rank[y],
{
    let root = root_from(parent, rank, x);
    let p = parent.insert(x, root);
    lemma_root_in_forest(parent, rank, x);
    if y == x {
        if root != x {
            assert(p[x] == root);
            assert(p[root] == root);
            assert(root_from(p, rank, root) == root);
        }
    } else if parent[y] != y {
        lemma_compressed_root(parent, rank, x, parent[y]);
    }
}

/// Hanging one root below another of higher rank redirects exactly the vertices of its set.
proof fn lemma_link(parent: Map<u64, u64>, rank: Map<u64, usize>, from: u64, to: u64)
    requires
        forest(parent, rank),
        parent.contains_key(from),
        parent.contains_key(to),
        parent[from] == from,
        parent[to] == to,
        from != to,
        rank[from] < rank[to],
    ensures
        forest(parent.insert(from, to), rank),
        roots(parent.insert(from, to), rank) == redirected(roots(parent, rank), from, to),
{
    let p = parent.insert(from, to);
    assert(p.dom() =~= parent.dom());
    assert forall|y: u64|
        #![trigger p[y]]
        p.contains_key(y) implies p.contains_key(p[y]) && (p[y] != y
        ==> rank[y] < rank[p[y]]) by {
        assert(parent.contains_key(y));
    }
    assert forall|y: u64| parent.contains_key(y) implies root_from(p, rank, y) == (if root_from(
        parent,
        rank,
        y,
    ) == from {
        to
    } else {
        root_from(parent, rank, y)
    }) by {
        lemma_linked_root(parent, rank, from, to, y);
    }
    assert(roots(p, rank) =~= redirected(roots(parent, rank), from, to));
}

proof fn lemma_linked_root(
    parent: Map<u64, u64>,
    rank: Map<u64, usize>,
    from: u64,
    to: u64,
    y: u64,
)
    requires
        forest(parent, rank),
        parent.contains_key(from),
        parent.contains_key(to),
        parent.contains_key(y),
        parent[from] == from,
        parent[to] == to,
        from != to,
        rank[from] < rank[to],
    ensures
        root_from(parent.insert(from, to), rank, y) == (if root_from(parent, rank, y) == from {
            to
        } else {
            root_from(parent, rank, y)
        }),
    decreases usize::MAX - rank[y],
{
    let p = parent.insert(from, to);
    if y == from {
        assert(p[to] == to);
        assert(root_from(p, rank, to) == to);
    } else if parent[y] != y {
        lemma_linked_root(parent, rank, from, to, parent[y]);
    }
}

/// Raising the rank of a root changes no root.
proof fn lemma_raise(parent: Map<u64, u64>, rank: Map<u64, usize>, top: u64, r: usize)
    requires
        forest(parent, rank),
        parent.contains_key(top),
        parent[top] == top,
        rank[top] <= r,
    ensures
        forest(parent, rank.insert(top, r)),
        roots(parent, rank.insert(top, r)) == roots(parent, rank),
{
    let q = rank.insert(top, r);
    assert(q.dom() =~= rank.dom());
    assert forall|y: u64| parent.contains_key(y) implies root_from(parent, q, y) == root_from(
        parent,
        rank,
        y,
    ) by {
        lemma_raised_root(parent, rank, top, r, y);
    }
    assert(roots(parent, q) =~= roots(parent, rank));
}

proof fn lemma_raised_root(
    parent: Map<u64, u64>,
    rank: Map<u64, usize>,
    top: u64,
    r: usize,
    y: u64,
)
    requires
        forest(parent, rank),
        parent.contains_key(top),
        parent.contains_key(y),
        parent[top] == top,
        rank[top] <= r,
    ensures
        root_from(parent, rank.insert(top, r), y) == root_from(parent, rank, y),
    decreases usize::MAX - rank[y],
{
    if parent[y] != y {
        lemma_raised_root(parent, rank, top, r, parent[y]);
    }
}

/// Some vertex of the given rank.
spec fn of_rank(rank: Map<u64, usize>, k: int) -> u64 {
    choose|y: u64| #[trigger] rank.contains_key(y) && rank[y] == k
}

/// Two vertices of one rank leave room for a rank above theirs: there are more vertices than
/// that rank counts.
proof fn lemma_rank_room(rank: Map<u64, usize>, x: u64, y: u64)
    requires
        rank.dom().finite(),
        dense_ranks(rank),
        rank.contains_key(x),
        rank.contains_key(y),
        x != y,
        rank[x] == rank[y],
    ensures
        rank[x] + 2 <= rank.dom().len(),
{
    let k = rank[x] as int;
    let below = vstd::set_lib::set_int_range(0, k);
    vstd::set_lib::lemma_int_range(0, k);
    let picked = below.map(|i: int| of_rank(rank, i));
    assert forall|i: int| below.contains(i) implies rank.contains_key(#[trigger] of_rank(rank, i))
        && rank[of_rank(rank, i)] == i by {
        assert(rank.contains_key(x) && (i as usize) < rank[x]);
        assert(has_rank(rank, i as usize));
    }
    vstd::set_lib::lemma_map_size(below, picked, |i: int| of_rank(rank, i));
    assert(picked.insert(x).insert(y).subset_of(rank.dom())) by {
        assert forall|z: u64| picked.contains(z) implies rank.dom().contains(z) by {
            let i = choose|i: int| below.contains(i) && of_rank(rank, i) == z;
            assert(below.contains(i));
        }
    }
    assert(!picked.contains(x)) by {
        if picked.contains(x) {
            let i = choose|i: int| below.contains(i) && of_rank(rank, i) == x;
            assert(below.contains(i));
        }
    }
    assert(!picked.contains(y)) by {
        if picked.contains(y) {
            let i = choose|i: int| below.contains(i) && of_rank(rank, i) == y;
            assert(below.contains(i));
        }
    }
    vstd::set_lib::lemma_len_subset(picked.insert(x).insert(y), rank.dom());
}

/// Linking two roots of one rank and raising the upper one keeps every rank below occupied.
proof fn lemma_dense_after_raise(rank: Map<u64, usize>, top: u64, other: u64)
    requires
        dense_ranks(rank),
        rank.contains_key(top),
        rank.contains_key(other),
        top != other,
        rank[top] == rank[other],
        rank[top] < usize::MAX,
    ensures
        dense_ranks(rank.insert(top, (rank[top] + 1) as usize)),
{
    let q = rank.insert(top, (rank[top] + 1) as usize);
    assert forall|x: u64, k: usize|
        #![trigger q.contains_key(x), has_rank(q, k)]
        q.contains_key(x) && k < q[x] implies has_rank(q, k) by {
        if k == rank[top] {
            assert(q.contains_key(other) && q[other] == k);
        } else {
            assert(rank.contains_key(x));
            if x == top {
                assert(k < rank[top]);
            }
            assert(has_rank(rank, k));
            let y = choose|y: u64| #[trigger] rank.contains_key(y) && rank[y] == k;
            assert(q.contains_key(y) && q[y] == k);
        }
    }
}

impl UnionFind {
    /// Parents form a forest, ranks grow towards the roots, and no rank is skipped.
    pub closed spec fn wf(self) -> bool {
        &&& forest(self.parent@, self.rank@)
        &&& dense_ranks(self.rank@)
    }

    /// A partition without vertices.
    pub fn new() -> (result: Self)
        ensures
            result.wf(),
            result@ == Map::<u64, u64>::empty(),
    {
        let result = Self { parent: HashMap::new(), rank: HashMap::new() };
        assert(result@ =~= Map::<u64, u64>::empty());
        result
    }

    /// Gives `x` a set of its own, unless it is in one already.
    pub fn make_set(&mut self, x: u64)
        requires
            old(self).wf(),
        ensures
            final(self).wf(),
            final(self)@ == with_vertex(old(self)@, x),
    {
        broadcast use vstd::std_specs::hash::group_hash_axioms;

        if !self.parent.contains_key(&x) {
            proof {
                lemma_fresh_vertex(self.parent@, self.rank@, x);
            }
            self.parent.insert(x, x);
            self.rank.insert(x, 0);
            assert forall|y: u64, k: usize|
                #![trigger self.rank@.contains_key(y), has_rank(self.rank@, k)]
                self.rank@.contains_key(y) && k < self.rank@[y] implies has_rank(
                self.rank@,
                k,
            ) by {
                assert(old(self).rank@.contains_key(y));
                assert(has_rank(old(self).rank@, k));
                let z = choose|z: u64| #[trigger]
                    old(self).rank@.contains_key(z) && old(self).rank@[z] == k;
                assert(self.rank@.contains_key(z) && self.rank@[z] == k);
            }
        } else {
            assert(self@ =~= with_vertex(self@, x));
        }
    }

    /// The root of the set of `x`, which gets a set of its own where it has none.
    pub fn find(&mut self, x: u64) -> (root: u64)
        requires
            old(self).wf(),
        ensures
            final(self).wf(),
            root == root_in(old(self)@, x),
            final(self)@ == with_vertex(old(self)@, x),
    {
        broadcast use vstd::std_specs::hash::group_hash_axioms;

        if self.parent.contains_key(&x) {
            let root = self.compress(x);
            assert(self@ =~= with_vertex(old(self)@, x));
            root
        } else {
            self.make_set(x);
            x
        }
    }

    /// Follows the parents of `x` to its root, and hangs every vertex on the way directly
    /// below it.
    fn compress(&mut self, x: u64) -> (root: u64)
        requires
            old(self).wf(),
            old(self).parent@.contains_key(x),
        ensures
            final(self).wf(),
            final(self).rank@ == old(self).rank@,
            final(self).parent@.dom() == old(self).parent@.dom(),
            root == root_from(old(self).parent@, old(self).rank@, x),
            final(self)@ == old(self)@,
        decreases usize::MAX - old(self).rank@[x],
    {
        broadcast use vstd::std_specs::hash::group_hash_axioms;

        let parent: u64 = *self.parent.get(&x).unwrap();
        if parent != x {
            let root = self.compress(parent);
            proof {
                assert(self@.contains_key(x));
                assert(self@[x] == old(self)@[x]);
                lemma_compression(self.parent@, self.rank@, x);
            }
            self.parent.insert(x, root);
            assert(self.parent@.dom() =~= old(self).parent@.dom());
            return root;
        }
        x
    }

    /// Merges the sets of `x` and `y`. The result is `false` exactly where both were in one
    /// set already; otherwise one of the two roots takes over the set of the other.
    pub fn union(&mut self, x: u64, y: u64) -> (merged: bool)
        requires
            old(self).wf(),
        ensures
            final(self).wf(),
            merged == !together(old(self)@, x, y),
            !merged ==> final(self)@ == with_vertex(with_vertex(old(self)@, x), y),
            merged ==> final(self)@ == redirected(
                with_vertex(with_vertex(old(self)@, x), y),
                root_in(old(self)@, x),
                root_in(old(self)@, y),
            ) || final(self)@ == redirected(
                with_vertex(with_vertex(old(self)@, x), y),
                root_in(old(self)@, y),
                root_in(old(self)@, x),
            ),
    {
        broadcast use vstd::std_specs::hash::group_hash_axioms;

        let ghost before = self@;
        let root_x: u64 = self.find(x);
        let root_y: u64 = self.find(y);
        proof {
            assert(root_y == root_in(before, y));
            assert(self@.contains_key(x) && self@.contains_key(y));
            assert(self@[x] == root_x && self@[y] == root_y);
            lemma_root_in_forest(self.parent@, self.rank@, x);
            lemma_root_in_forest(self.parent@, self.rank@, y);
        }
        if root_x == root_y {
            return false;
        }
        let rank_x: usize = *self.rank.get(&root_x).unwrap();
        let rank_y: usize = *self.rank.get(&root_y).unwrap();
        if rank_x < rank_y {
            proof {
                lemma_link(self.parent@, self.rank@, root_x, root_y);
            }
            self.parent.insert(root_x, root_y);
        } else if rank_x > rank_y {
            proof {
                lemma_link(self.parent@, self.rank@, root_y, root_x);
            }
            self.parent.insert(root_y, root_x);
        } else {
            let vertices: usize = self.rank.len();
            proof {
                lemma_rank_room(self.rank@, root_x, root_y);
                assert(vertices == self.rank@.dom().len());
                lemma_raise(self.parent@, self.rank@, root_x, (rank_x + 1) as usize);
                lemma_dense_after_raise(self.rank@, root_x, root_y);
                lemma_link(
                    self.parent@,
                    self.rank@.insert(root_x, (rank_x + 1) as usize),
                    root_y,
                    root_x,
                );
            }
            self.parent.insert(root_y, root_x);
            self.rank.insert(root_x, rank_x + 1);
        }
        true
    }
}

/// In every partition that the operations give, a root is in its own set.
pub proof fn partition_is_rooted(sets: UnionFind)
    requires
        sets.wf(),
    ensures
        rooted(sets@),
{
    lemma_rooted(sets.parent@, sets.rank@);
}

/// Merging two sets puts two vertices together exactly where they were together before, or
/// where one was with `x` and the other with `y`.
pub proof fn union_joins_exactly_two_sets(before: Map<u64, u64>, after: Map<u64, u64>, x: u64, y: u64, a: u64, b: u64)
    requires
        rooted(before),
        ({
            let both = with_vertex(with_vertex(before, x), y);
            ||| after == redirected(both, root_in(before, x), root_in(before, y))
            ||| after == redirected(both, root_in(before, y), root_in(before, x))
        }),
    ensures
        together(after, a, b) <==> {
            ||| together(before, a, b)
            ||| together(before, a, x) && together(before, y, b)
            ||| together(before, a, y) && together(before, x, b)
        },
{
}

} // verus!
