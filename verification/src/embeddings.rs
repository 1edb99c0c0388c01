//! What degrees count: the ways in which a star or a branch of a query can be found in the data.
use crate::counting::{
    lemma_no_places, lemma_pairs, lemma_parts, lemma_places_step, lemma_renamed, pairs_of, places,
};
use crate::flat::{hops_along, passes, FlatEdgeView, FlatView};
use crate::query::VertexId;
use crate::sampling::{filtered_branch_degree, star_degree, CompiledStarView};
use crate::stars::{
    accepted, arm_degree, branch_degree, joint_degree, saturated, through, through_all, times_arms,
    ArmView, BranchView,
};
use vstd::prelude::*;

verus! {

/// Whether an edge of the data with a label is at a vertex: leaves it, or enters it.
pub open spec fn is_at(
    e: FlatEdgeView,
    label: Seq<char>,
    edge_label: Seq<char>,
    outgoing: bool,
    v: VertexId,
) -> bool {
    &&& e.label == edge_label
    &&& if outgoing {
        e.src == v && e.src_label == label
    } else {
        e.dst == v && e.dst_label == label
    }
}

/// The other end of an edge.
pub open spec fn far_end_of(e: FlatEdgeView, outgoing: bool) -> VertexId {
    if outgoing {
        e.dst
    } else {
        e.src
    }
}

/// Whether the data edge at a place can stand for an arm at a vertex: it is one of its edges with
/// the label of the arm, it meets the conditions on the edge, and its other end meets those on
/// the leaf.
pub open spec fn stands_for_arm(
    data: FlatView,
    label: Seq<char>,
    arm: ArmView,
    v: VertexId,
    place: int,
) -> bool {
    let e = data.edges[place];
    &&& 0 <= place < data.edges.len()
    &&& is_at(e, label, arm.edge_label, arm.outgoing, v)
    &&& passes(data.edge_props(e.id), arm.edge_predicates)
    &&& passes(data.vertex_props(arm.leaf_label, far_end_of(e, arm.outgoing)), arm.leaf_predicates)
}

/// Whether data edges stand for arms at a vertex, one for each.
pub open spec fn stand_for_arms(
    data: FlatView,
    label: Seq<char>,
    arms: Seq<ArmView>,
    v: VertexId,
    chosen: Seq<int>,
) -> bool {
    &&& chosen.len() == arms.len()
    &&& forall|i: int|
        #![trigger chosen[i]]
        0 <= i < arms.len() ==> stands_for_arm(data, label, arms[i], v, chosen[i])
}

/// The ways to choose data edges that stand for arms at a vertex.
pub open spec fn arm_choices(
    data: FlatView,
    label: Seq<char>,
    arms: Seq<ArmView>,
    v: VertexId,
) -> Set<Seq<int>> {
    Set::new(|chosen: Seq<int>| stand_for_arms(data, label, arms, v, chosen))
}

/// Whether a degree is a number, or the greatest degree that there is where that is less.
pub open spec fn is_degree(degree: u64, number: nat) -> bool {
    if number <= 0xffff_ffff_ffff_ffff {
        degree == number
    } else {
        degree == 0xffff_ffff_ffff_ffff
    }
}

/// A product that is cut off may be cut off before it is multiplied further.
pub proof fn lemma_product(a: int, b: int)
    requires
        a >= 0,
        b >= 0,
    ensures
        saturated(saturated(a) * b) == saturated(a * b),
{
    if a > u64::MAX {
        if b == 0 {
            assert(a * b == 0) by (nonlinear_arith)
                requires
                    b == 0,
            ;
            assert(u64::MAX * b == 0) by (nonlinear_arith)
                requires
                    b == 0,
            ;
        } else {
            assert(a * b > u64::MAX) by (nonlinear_arith)
                requires
                    a > u64::MAX,
                    b >= 1,
            ;
            assert(u64::MAX * b >= u64::MAX) by (nonlinear_arith)
                requires
                    b >= 1,
            ;
        }
    }
}

proof fn lemma_arm_places(
    data: FlatView,
    label: Seq<char>,
    arm: ArmView,
    v: VertexId,
    n: int,
)
    requires
        0 <= n <= data.edges.len(),
    ensures
        ({
            let found = places(n, |p: int| stands_for_arm(data, label, arm, v, p));
            &&& found.finite()
            &&& found.len() == accepted(
                data,
                arm,
                hops_along(data.edges.take(n), label, arm.edge_label, arm.outgoing, v),
            )
        }),
    decreases n,
{
    let wanted = |p: int| stands_for_arm(data, label, arm, v, p);
    if n == 0 {
        lemma_no_places(wanted);
    } else {
        lemma_arm_places(data, label, arm, v, n - 1);
        lemma_places_step(n, wanted);
        let edges = data.edges.take(n);
        let before = hops_along(edges.drop_last(), label, arm.edge_label, arm.outgoing, v);
        assert(edges.drop_last() =~= data.edges.take(n - 1));
        let e = data.edges[n - 1];
        assert(edges.last() == e);
        let hop = (far_end_of(e, arm.outgoing), e.id);
        assert(before.push(hop).drop_last() =~= before);
    }
}

/// The degree along an arm is the number of data edges that can stand for it.
pub proof fn arm_degrees_count_edges(
    data: FlatView,
    label: Seq<char>,
    arm: ArmView,
    v: VertexId,
)
    ensures
        ({
            let found = Set::new(|p: int| stands_for_arm(data, label, arm, v, p));
            found.finite() && arm_degree(data, label, arm, v) == found.len()
        }),
{
    let n = data.edges.len() as int;
    let wanted = |p: int| stands_for_arm(data, label, arm, v, p);
    lemma_arm_places(data, label, arm, v, n);
    assert(data.edges.take(n) =~= data.edges);
    assert(places(n, wanted) =~= Set::new(|p: int| stands_for_arm(data, label, arm, v, p)));
}

proof fn lemma_choices(data: FlatView, label: Seq<char>, arms: Seq<ArmView>, v: VertexId)
    ensures
        arm_choices(data, label, arms, v).finite(),
        arms.len() == 0 ==> arm_choices(data, label, arms, v).len() == 1,
        arms.len() > 0 ==> arm_choices(data, label, arms, v).len() == arm_choices(
            data,
            label,
            arms.drop_last(),
            v,
        ).len() * arm_degree(data, label, arms.last(), v),
    decreases arms.len(),
{
    let all = arm_choices(data, label, arms, v);
    if arms.len() == 0 {
        assert(all =~= set![Seq::<int>::empty()]) by {
            assert forall|c: Seq<int>| #[trigger] all.contains(c) implies c
                == Seq::<int>::empty() by {
                assert(c =~= Seq::<int>::empty());
            }
        }
    } else {
        let fewer = arms.drop_last();
        let arm = arms.last();
        let before = arm_choices(data, label, fewer, v);
        let last = Set::new(|p: int| stands_for_arm(data, label, arm, v, p));
        lemma_choices(data, label, fewer, v);
        arm_degrees_count_edges(data, label, arm, v);
        lemma_pairs(before, last);
        let pairs = pairs_of(before, last);
        let name = |p: (Seq<int>, int)| p.0.push(p.1);
        assert forall|p: (Seq<int>, int)| #[trigger] pairs.contains(p) implies all.contains(
            name(p),
        ) by {
            let chosen = p.0.push(p.1);
            assert forall|i: int|
                #![trigger chosen[i]]
                0 <= i < arms.len() implies stands_for_arm(data, label, arms[i], v, chosen[i]) by {
                if i < fewer.len() {
                    assert(chosen[i] == p.0[i]);
                    assert(stands_for_arm(data, label, fewer[i], v, p.0[i]));
                }
            }
        }
        assert forall|c: Seq<int>| #[trigger] all.contains(c) implies exists|p: (Seq<int>, int)|
            #[trigger] pairs.contains(p) && name(p) == c by {
            let p = (c.drop_last(), c.last());
            assert forall|i: int|
                #![trigger p.0[i]]
                0 <= i < fewer.len() implies stands_for_arm(data, label, fewer[i], v, p.0[i]) by {
                assert(c[i] == p.0[i]);
            }
            assert(stands_for_arm(data, label, arms[c.len() - 1], v, c[c.len() - 1]));
            assert(pairs.contains(p));
            assert(name(p) =~= c);
        }
        assert forall|a: (Seq<int>, int), b: (Seq<int>, int)|
            #![trigger pairs.contains(a), pairs.contains(b)]
            pairs.contains(a) && pairs.contains(b) && name(a) == name(b) implies a == b by {
            assert(name(a).drop_last() =~= a.0);
            assert(name(b).drop_last() =~= b.0);
            assert(name(a).last() == a.1 && name(b).last() == b.1);
        }
        lemma_renamed(pairs, all, name);
    }
}

proof fn lemma_joint(data: FlatView, label: Seq<char>, arms: Seq<ArmView>, v: VertexId)
    ensures
        joint_degree(data, label, arms, v) == saturated(
            arm_choices(data, label, arms, v).len() as int,
        ),
    decreases arms.len(),
{
    lemma_choices(data, label, arms, v);
    if arms.len() > 0 {
        lemma_joint(data, label, arms.drop_last(), v);
        lemma_product(
            arm_choices(data, label, arms.drop_last(), v).len() as int,
            arm_degree(data, label, arms.last(), v) as int,
        );
    }
}

/// The ways in which a star can be found at a center: data edges that stand for its arms, where
/// the center meets its conditions.
pub open spec fn star_embeddings(data: FlatView, star: CompiledStarView, v: VertexId) -> Set<
    Seq<int>,
> {
    Set::new(
        |chosen: Seq<int>|
            passes(data.vertex_props(star.center_label, v), star.center_predicates)
                && stand_for_arms(data, star.center_label, star.arms, v, chosen),
    )
}

/// The degree of a center in a star is the number of ways in which the star can be found there.
pub proof fn star_degrees_count_embeddings(data: FlatView, star: CompiledStarView, v: VertexId)
    ensures
        star_embeddings(data, star, v).finite(),
        is_degree(star_degree(data, star, v), star_embeddings(data, star, v).len()),
{
    lemma_choices(data, star.center_label, star.arms, v);
    lemma_joint(data, star.center_label, star.arms, v);
    if passes(data.vertex_props(star.center_label, v), star.center_predicates) {
        assert(star_embeddings(data, star, v) =~= arm_choices(
            data,
            star.center_label,
            star.arms,
            v,
        ));
    } else {
        assert(star_embeddings(data, star, v) =~= Set::empty());
    }
}

/// One way in which a branch is found: the place of the data edge that stands for its root, and
/// those of the edges that stand for the arms of the intermediate vertex and of the center.
#[verifier::ext_equal]
pub struct BranchChoice {
    pub root: int,
    pub leaves: Seq<int>,
    pub center_leaves: Seq<int>,
}

/// Whether the data edge at a place can stand for the root of a branch.
pub open spec fn stands_for_root(
    data: FlatView,
    branch: BranchView,
    v: VertexId,
    place: int,
) -> bool {
    let e = data.edges[place];
    &&& 0 <= place < data.edges.len()
    &&& is_at(e, branch.center_label, branch.root_edge_label, branch.root_outgoing, v)
    &&& passes(data.edge_props(e.id), branch.root_edge_predicates)
    &&& passes(
        data.vertex_props(branch.intermediate_label, far_end_of(e, branch.root_outgoing)),
        branch.intermediate_predicates,
    )
}

/// The intermediate vertex that the data edge at a place leads to.
pub open spec fn intermediate_at(data: FlatView, branch: BranchView, place: int) -> VertexId {
    far_end_of(data.edges[place], branch.root_outgoing)
}

/// The ways in which a branch can be found at a center that meets its conditions.
pub open spec fn branch_embeddings(data: FlatView, branch: BranchView, v: VertexId) -> Set<
    BranchChoice,
> {
    Set::new(
        |c: BranchChoice|
            {
                &&& passes(data.vertex_props(branch.center_label, v), branch.center_predicates)
                &&& stands_for_root(data, branch, v, c.root)
                &&& stand_for_arms(
                    data,
                    branch.intermediate_label,
                    branch.leaf_arms,
                    intermediate_at(data, branch, c.root),
                    c.leaves,
                )
                &&& stand_for_arms(
                    data,
                    branch.center_label,
                    branch.center_leaf_arms,
                    v,
                    c.center_leaves,
                )
            },
    )
}

spec fn root_choices(data: FlatView, branch: BranchView, v: VertexId, n: int) -> Set<
    (int, Seq<int>),
> {
    Set::new(
        |c: (int, Seq<int>)|
            c.0 < n && stands_for_root(data, branch, v, c.0) && stand_for_arms(
                data,
                branch.intermediate_label,
                branch.leaf_arms,
                intermediate_at(data, branch, c.0),
                c.1,
            ),
    )
}

proof fn lemma_roots(data: FlatView, branch: BranchView, v: VertexId, n: int)
    requires
        0 <= n <= data.edges.len(),
    ensures
        root_choices(data, branch, v, n).finite(),
        saturated(root_choices(data, branch, v, n).len() as int) == through_all(
            data,
            branch,
            hops_along(
                data.edges.take(n),
                branch.center_label,
                branch.root_edge_label,
                branch.root_outgoing,
                v,
            ),
        ),
    decreases n,
{
    let all = root_choices(data, branch, v, n);
    if n == 0 {
        assert(all =~= Set::empty());
    } else {
        lemma_roots(data, branch, v, n - 1);
        let before = root_choices(data, branch, v, n - 1);
        let edges = data.edges.take(n);
        let hops = hops_along(
            edges.drop_last(),
            branch.center_label,
            branch.root_edge_label,
            branch.root_outgoing,
            v,
        );
        assert(edges.drop_last() =~= data.edges.take(n - 1));
        let e = data.edges[n - 1];
        assert(edges.last() == e);
        let mid = far_end_of(e, branch.root_outgoing);
        let hop = (mid, e.id);
        assert(hops.push(hop).drop_last() =~= hops);
        if stands_for_root(data, branch, v, n - 1) {
            let leaves = arm_choices(data, branch.intermediate_label, branch.leaf_arms, mid);
            lemma_choices(data, branch.intermediate_label, branch.leaf_arms, mid);
            lemma_joint(data, branch.intermediate_label, branch.leaf_arms, mid);
            let here: Set<(int, Seq<int>)> = Set::new(
                |c: (int, Seq<int>)| c.0 == n - 1 && leaves.contains(c.1),
            );
            let name = |c: Seq<int>| (n - 1, c);
            assert forall|c: (int, Seq<int>)| #[trigger] here.contains(c) implies exists|
                x: Seq<int>,
            | #[trigger] leaves.contains(x) && name(x) == c by {
                assert(leaves.contains(c.1) && name(c.1) == c);
            }
            lemma_renamed(leaves, here, name);
            lemma_parts(all, before, here);
            assert(through(data, branch, hop) == saturated(leaves.len() as int));
        } else {
            assert(all =~= before);
        }
    }
}

proof fn lemma_times(
    data: FlatView,
    label: Seq<char>,
    begun: int,
    arms: Seq<ArmView>,
    v: VertexId,
)
    requires
        begun >= 0,
    ensures
        times_arms(data, label, saturated(begun), arms, v) == saturated(
            begun * arm_choices(data, label, arms, v).len(),
        ),
    decreases arms.len(),
{
    lemma_choices(data, label, arms, v);
    if arms.len() > 0 {
        let fewer = arm_choices(data, label, arms.drop_last(), v).len() as int;
        let last = arm_degree(data, label, arms.last(), v) as int;
        lemma_times(data, label, begun, arms.drop_last(), v);
        assert(begun * fewer >= 0) by (nonlinear_arith)
            requires
                begun >= 0,
                fewer >= 0,
        ;
        lemma_product(begun * fewer, last);
        assert((begun * fewer) * last == begun * (fewer * last)) by (nonlinear_arith);
    } else {
        assert(begun * 1 == begun);
    }
}

/// The degree of a center in a branch is the number of ways in which the branch can be found
/// there.
pub proof fn branch_degrees_count_embeddings(data: FlatView, branch: BranchView, v: VertexId)
    ensures
        branch_embeddings(data, branch, v).finite(),
        is_degree(filtered_branch_degree(data, branch, v), branch_embeddings(data, branch, v).len()),
{
    let all = branch_embeddings(data, branch, v);
    if passes(data.vertex_props(branch.center_label, v), branch.center_predicates) {
        let n = data.edges.len() as int;
        let roots = root_choices(data, branch, v, n);
        let centers = arm_choices(data, branch.center_label, branch.center_leaf_arms, v);
        lemma_roots(data, branch, v, n);
        assert(data.edges.take(n) =~= data.edges);
        lemma_choices(data, branch.center_label, branch.center_leaf_arms, v);
        lemma_times(
            data,
            branch.center_label,
            roots.len() as int,
            branch.center_leaf_arms,
            v,
        );
        lemma_pairs(roots, centers);
        let pairs = pairs_of(roots, centers);
        let name = |p: ((int, Seq<int>), Seq<int>)|
            BranchChoice { root: p.0.0, leaves: p.0.1, center_leaves: p.1 };
        assert forall|c: BranchChoice| #[trigger] all.contains(c) implies exists|
            p: ((int, Seq<int>), Seq<int>),
        | #[trigger] pairs.contains(p) && name(p) == c by {
            let p = ((c.root, c.leaves), c.center_leaves);
            assert(pairs.contains(p) && name(p) == c);
        }
        lemma_renamed(pairs, all, name);
        assert(branch_degree(data, branch, v) == saturated((roots.len() * centers.len()) as int));
    } else {
        assert(all =~= Set::empty());
    }
}

} // verus!
