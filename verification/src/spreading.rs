//! What the changes of a log mean: along longer paths they are counted by the walks through the
//! changed data.
use crate::compaction::{
    changes_of, grown_path, leaves, leaves_along, leaves_of, no_change, of_those_here, spread,
    spread_along, total, Changes, Leaf, World,
};
use crate::flat::{FlatEdgeView, FlatView, PendingView};
use crate::pattern::first_direction;
use crate::pending::{extensions_from, flat_edges_kept, with_changes, ExtensionView};
use crate::query::VertexId;
use crate::text::label_views;
use crate::update_log::{
    begins_with_label, edge_change, edge_head, entries_wf, heads, lemma_logged_nowhere, logged,
    with_edge_heads, with_head, GCardUpdateLog, UpdateEntry,
};
use vstd::prelude::*;

verus! {

/// What the edges at a vertex with a label feed to it, of changes at their other ends: those of
/// the edges with a label to vertices with another one, in both directions.
pub open spec fn fed_by(
    edges: Seq<FlatEdgeView>,
    own: Seq<char>,
    edge_label: Seq<char>,
    other: Seq<char>,
    changes: Changes,
    v: VertexId,
) -> int
    decreases edges.len(),
{
    if edges.len() == 0 {
        0
    } else {
        let e = edges.last();
        fed_by(edges.drop_last(), own, edge_label, other, changes, v) + (if e.label == edge_label
            && e.src_label == own && e.src == v && e.dst_label == other {
            changes(e.dst)
        } else {
            0
        }) + (if e.label == edge_label && e.dst_label == own && e.dst == v && e.src_label
            == other {
            changes(e.src)
        } else {
            0
        })
    }
}

/// The sum of changes over the ends of all walks from a vertex along a path, which lists the labels
/// of its vertices and edges in turn.
pub open spec fn walked(
    edges: Seq<FlatEdgeView>,
    path: Seq<Seq<char>>,
    v: VertexId,
    changes: Changes,
) -> int
    decreases path.len(), edges.len() + 1,
{
    if path.len() < 3 {
        changes(v)
    } else {
        walked_over(edges, path, v, changes, edges.len())
    }
}

/// The sum of changes over the ends of the walks that begin with one of the first `n` edges, taken
/// in one direction or the other.
pub open spec fn walked_over(
    edges: Seq<FlatEdgeView>,
    path: Seq<Seq<char>>,
    v: VertexId,
    changes: Changes,
    n: nat,
) -> int
    decreases path.len(), n,
{
    if n == 0 || path.len() < 3 {
        0
    } else {
        let e = edges[n - 1];
        walked_over(edges, path, v, changes, (n - 1) as nat) + (if e.label == path[1]
            && e.src_label == path[0] && e.src == v && e.dst_label == path[2] {
            walked(edges, path.skip(2), e.dst, changes)
        } else {
            0
        }) + (if e.label == path[1] && e.dst_label == path[0] && e.dst == v && e.src_label
            == path[2] {
            walked(edges, path.skip(2), e.src, changes)
        } else {
            0
        })
    }
}

proof fn lemma_first_step(
    edges: Seq<FlatEdgeView>,
    path: Seq<Seq<char>>,
    v: VertexId,
    changes: Changes,
    n: nat,
)
    requires
        path.len() >= 3,
        n <= edges.len(),
    ensures
        walked_over(edges, path, v, changes, n) == fed_by(
            edges.take(n as int),
            path[0],
            path[1],
            path[2],
            |w: VertexId| walked(edges, path.skip(2), w, changes),
            v,
        ),
        n == edges.len() ==> walked(edges, path, v, changes) == fed_by(
            edges,
            path[0],
            path[1],
            path[2],
            |w: VertexId| walked(edges, path.skip(2), w, changes),
            v,
        ),
    decreases n,
{
    if n > 0 {
        lemma_first_step(edges, path, v, changes, (n - 1) as nat);
        assert(edges.take(n as int).drop_last() =~= edges.take(n - 1));
        assert(edges.take(n as int).last() == edges[n - 1]);
    }
    if n == edges.len() {
        assert(edges.take(n as int) =~= edges);
    }
}

proof fn lemma_fed_same(
    edges: Seq<FlatEdgeView>,
    own: Seq<char>,
    edge_label: Seq<char>,
    other: Seq<char>,
    a: Changes,
    b: Changes,
    v: VertexId,
)
    requires
        forall|w: VertexId| #[trigger] a(w) == b(w),
    ensures
        fed_by(edges, own, edge_label, other, a, v) == fed_by(edges, own, edge_label, other, b, v),
    decreases edges.len(),
{
    if edges.len() > 0 {
        lemma_fed_same(edges.drop_last(), own, edge_label, other, a, b, v);
        let e = edges.last();
        assert(a(e.src) == b(e.src) && a(e.dst) == b(e.dst));
    }
}

proof fn lemma_fed_sum(
    edges: Seq<FlatEdgeView>,
    own: Seq<char>,
    edge_label: Seq<char>,
    other: Seq<char>,
    a: Changes,
    b: Changes,
    both: Changes,
    v: VertexId,
)
    requires
        forall|w: VertexId| #[trigger] both(w) == a(w) + b(w),
    ensures
        fed_by(edges, own, edge_label, other, both, v) == fed_by(
            edges,
            own,
            edge_label,
            other,
            a,
            v,
        ) + fed_by(edges, own, edge_label, other, b, v),
    decreases edges.len(),
{
    if edges.len() > 0 {
        lemma_fed_sum(edges.drop_last(), own, edge_label, other, a, b, both, v);
        let e = edges.last();
        assert(both(e.src) == a(e.src) + b(e.src) && both(e.dst) == a(e.dst) + b(e.dst));
    }
}

proof fn lemma_walked_same(
    edges: Seq<FlatEdgeView>,
    path: Seq<Seq<char>>,
    v: VertexId,
    a: Changes,
    b: Changes,
)
    requires
        forall|w: VertexId| #[trigger] a(w) == b(w),
    ensures
        walked(edges, path, v, a) == walked(edges, path, v, b),
    decreases path.len(),
{
    if path.len() >= 3 {
        let x = |w: VertexId| walked(edges, path.skip(2), w, a);
        let y = |w: VertexId| walked(edges, path.skip(2), w, b);
        assert forall|w: VertexId| #[trigger] x(w) == y(w) by {
            lemma_walked_same(edges, path.skip(2), w, a, b);
        }
        lemma_fed_same(edges, path[0], path[1], path[2], x, y, v);
        lemma_first_step(edges, path, v, a, edges.len());
        lemma_first_step(edges, path, v, b, edges.len());
    } else {
        assert(a(v) == b(v));
    }
}

proof fn lemma_walked_sum(
    edges: Seq<FlatEdgeView>,
    path: Seq<Seq<char>>,
    v: VertexId,
    a: Changes,
    b: Changes,
    both: Changes,
)
    requires
        forall|w: VertexId| #[trigger] both(w) == a(w) + b(w),
    ensures
        walked(edges, path, v, both) == walked(edges, path, v, a) + walked(edges, path, v, b),
    decreases path.len(),
{
    if path.len() >= 3 {
        let x = |w: VertexId| walked(edges, path.skip(2), w, a);
        let y = |w: VertexId| walked(edges, path.skip(2), w, b);
        let z = |w: VertexId| walked(edges, path.skip(2), w, both);
        assert forall|w: VertexId| #[trigger] z(w) == x(w) + y(w) by {
            lemma_walked_sum(edges, path.skip(2), w, a, b, both);
        }
        lemma_fed_sum(edges, path[0], path[1], path[2], x, y, z, v);
        lemma_first_step(edges, path, v, a, edges.len());
        lemma_first_step(edges, path, v, b, edges.len());
        lemma_first_step(edges, path, v, both, edges.len());
    } else {
        assert(both(v) == a(v) + b(v));
    }
}

proof fn lemma_walked_nothing(
    edges: Seq<FlatEdgeView>,
    path: Seq<Seq<char>>,
    v: VertexId,
    changes: Changes,
)
    requires
        no_change(changes),
    ensures
        walked(edges, path, v, changes) == 0,
{
    lemma_walked_sum(edges, path, v, changes, changes, changes);
}

proof fn lemma_one_edge_more(
    edges: Seq<FlatEdgeView>,
    path: Seq<Seq<char>>,
    edge_label: Seq<char>,
    last: Seq<char>,
    v: VertexId,
    changes: Changes,
)
    requires
        path.len() % 2 == 1,
    ensures
        walked(edges, path + seq![edge_label, last], v, changes) == walked(
            edges,
            path,
            v,
            |u: VertexId| fed_by(edges, path.last(), edge_label, last, changes, u),
        ),
    decreases path.len(),
{
    let longer = path + seq![edge_label, last];
    let further = |u: VertexId| fed_by(edges, path.last(), edge_label, last, changes, u);
    lemma_first_step(edges, longer, v, changes, edges.len());
    if path.len() == 1 {
        let x = |w: VertexId| walked(edges, longer.skip(2), w, changes);
        lemma_fed_same(edges, longer[0], longer[1], longer[2], x, changes, v);
    } else {
        let rest = path.skip(2);
        assert(longer.skip(2) =~= rest + seq![edge_label, last]);
        assert(rest.last() == path.last());
        let x = |w: VertexId| walked(edges, longer.skip(2), w, changes);
        let y = |w: VertexId| walked(edges, rest, w, further);
        assert forall|w: VertexId| #[trigger] x(w) == y(w) by {
            lemma_one_edge_more(edges, rest, edge_label, last, w, changes);
            let ended = |u: VertexId| fed_by(edges, rest.last(), edge_label, last, changes, u);
            lemma_walked_same(edges, rest, w, ended, further);
        }
        lemma_first_step(edges, path, v, further, edges.len());
        lemma_fed_same(edges, path[0], path[1], path[2], x, y, v);
    }
}

/// What edges pass on to a vertex when a path grows in some way.
pub open spec fn passed_on(
    edges: Seq<FlatEdgeView>,
    label: Seq<char>,
    ext: ExtensionView,
    changes: Changes,
    v: VertexId,
) -> int
    decreases edges.len(),
{
    if edges.len() == 0 {
        0
    } else {
        let e = edges.last();
        let (near, near_label, far) = if ext.outgoing {
            (e.src, e.src_label, e.dst)
        } else {
            (e.dst, e.dst_label, e.src)
        };
        passed_on(edges.drop_last(), label, ext, changes, v) + (if e.label == ext.edge_label
            && near_label == label && far == v {
            changes(near)
        } else {
            0
        })
    }
}

/// Whether the labels of edge types are distinct.
pub open spec fn types_are_distinct(types: Seq<(Seq<char>, (Seq<char>, Seq<char>))>) -> bool {
    forall|i: int, j: int|
        #![trigger types[i], types[j]]
        0 <= i < j < types.len() ==> types[i].0 != types[j].0
}

/// Whether an edge is between the labels that its type says.
pub open spec fn is_typed(
    types: Seq<(Seq<char>, (Seq<char>, Seq<char>))>,
    e: FlatEdgeView,
) -> bool {
    exists|i: int|
        #![trigger types[i]]
        0 <= i < types.len() && types[i] == (e.label, (e.src_label, e.dst_label))
}

/// Whether changes of a data graph fit together: no edge both comes and goes, the edges that are
/// left are of their types, and none of them is at a vertex that goes.
pub open spec fn fits_together(data: FlatView, pending: PendingView, world: World) -> bool {
    let left = with_changes(data, pending).edges;
    &&& world.data == data
    &&& world.inserted == pending.inserted_edges
    &&& world.cut == pending.deleted_edge_ids.to_set()
    &&& types_are_distinct(data.edge_types)
    &&& forall|i: int|
        #![trigger pending.inserted_edges[i]]
        0 <= i < pending.inserted_edges.len() ==> !pending.deleted_edge_ids.contains(
            pending.inserted_edges[i].id,
        )
    &&& forall|i: int| #![trigger left[i]] 0 <= i < left.len() ==> is_typed(data.edge_types, left[i])
    &&& forall|i: int|
        #![trigger left[i]]
        0 <= i < left.len() ==> !world.gone.contains(left[i].src) && !world.gone.contains(
            left[i].dst,
        ) && !world.leaving.contains(left[i].src) && !world.leaving.contains(left[i].dst)
}

proof fn lemma_kept(edges: Seq<FlatEdgeView>, cut: Seq<u64>, n: int, i: int)
    requires
        0 <= i < n <= edges.len(),
        !cut.contains(edges[i].id),
    ensures
        flat_edges_kept(edges.take(n), cut).contains(edges[i]),
    decreases n,
{
    assert(edges.take(n).drop_last() =~= edges.take(n - 1));
    let before = flat_edges_kept(edges.take(n - 1), cut);
    let now = flat_edges_kept(edges.take(n), cut);
    if i < n - 1 {
        lemma_kept(edges, cut, n - 1, i);
        let k = choose|k: int| 0 <= k < before.len() && before[k] == edges[i];
        assert(now[k] == edges[i]);
    } else {
        assert(now[before.len() as int] == edges[i]);
    }
}

proof fn lemma_extension_has_type(
    types: Seq<(Seq<char>, (Seq<char>, Seq<char>))>,
    label: Seq<char>,
    i: int,
) -> (k: int)
    requires
        0 <= i < extensions_from(types, label).len(),
    ensures
        0 <= k < types.len(),
        ({
            let ext = extensions_from(types, label)[i];
            if ext.outgoing {
                types[k] == (ext.edge_label, (label, ext.neighbor_label))
            } else {
                types[k] == (ext.edge_label, (ext.neighbor_label, label))
            }
        }),
    decreases types.len(),
{
    let before = extensions_from(types.drop_last(), label);
    if i < before.len() {
        let k = lemma_extension_has_type(types.drop_last(), label, i);
        assert(types.drop_last()[k] == types[k]);
        k
    } else {
        types.len() - 1
    }
}

proof fn lemma_type_gives_extension(
    types: Seq<(Seq<char>, (Seq<char>, Seq<char>))>,
    label: Seq<char>,
    k: int,
)
    requires
        0 <= k < types.len(),
        types[k].1.0 == label || types[k].1.1 == label,
    ensures
        extensions_from(types, label).len() > 0,
    decreases types.len(),
{
    if k < types.len() - 1 {
        assert(types.drop_last()[k] == types[k]);
        lemma_type_gives_extension(types.drop_last(), label, k);
    }
}

/// A change spreads over every edge that is left when the pending changes are made, those that
/// come included, and over no other: a vertex gets the changes of the vertices with the label at
/// the other ends of its edges with the label to grow by.
pub proof fn changes_spread_over_the_changed_graph(
    data: FlatView,
    pending: PendingView,
    world: World,
    label: Seq<char>,
    i: int,
    changes: Changes,
    v: VertexId,
)
    requires
        fits_together(data, pending, world),
        0 <= i < extensions_from(data.edge_types, label).len(),
    ensures
        ({
            let ext = extensions_from(data.edge_types, label)[i];
            spread(world.steps(label, ext), changes, v) == passed_on(
                with_changes(data, pending).edges,
                label,
                ext,
                changes,
                v,
            )
        }),
{
    let ext = extensions_from(data.edge_types, label)[i];
    let all = data.edges + pending.inserted_edges;
    let n = all.len() as int;
    lemma_spread_prefix(data, pending, world, label, i, changes, v, n);
    assert(all.take(n) =~= all);
    assert(world.steps(label, ext).take(n) =~= world.steps(label, ext));
}

proof fn lemma_spread_prefix(
    data: FlatView,
    pending: PendingView,
    world: World,
    label: Seq<char>,
    i: int,
    changes: Changes,
    v: VertexId,
    n: int,
)
    requires
        fits_together(data, pending, world),
        0 <= i < extensions_from(data.edge_types, label).len(),
        0 <= n <= data.edges.len() + pending.inserted_edges.len(),
    ensures
        ({
            let ext = extensions_from(data.edge_types, label)[i];
            let all = data.edges + pending.inserted_edges;
            spread(world.steps(label, ext).take(n), changes, v) == passed_on(
                flat_edges_kept(all.take(n), pending.deleted_edge_ids),
                label,
                ext,
                changes,
                v,
            )
        }),
    decreases n,
{
    let ext = extensions_from(data.edge_types, label)[i];
    let all = data.edges + pending.inserted_edges;
    let steps = world.steps(label, ext);
    let cut = pending.deleted_edge_ids;
    if n > 0 {
        lemma_spread_prefix(data, pending, world, label, i, changes, v, n - 1);
        assert(steps.take(n).drop_last() =~= steps.take(n - 1));
        assert(all.take(n).drop_last() =~= all.take(n - 1));
        let e = all[n - 1];
        assert(steps.take(n).last() == steps[n - 1]);
        assert(all.take(n).last() == e);
        let before = flat_edges_kept(all.take(n - 1), cut);
        let base = data.edges.len() as int;
        if cut.contains(e.id) {
            if n - 1 >= base {
                assert(pending.inserted_edges[n - 1 - base] == e);
            }
            assert(world.cut.contains(e.id));
            assert(steps[n - 1] == world.step(e, label, ext));
        } else {
            let now = before.push(e);
            assert(now.drop_last() =~= before);
            let left = with_changes(data, pending).edges;
            lemma_kept(all, cut, all.len() as int, n - 1);
            assert(all.take(all.len() as int) =~= all);
            let k = choose|k: int| 0 <= k < left.len() && left[k] == e;
            assert(is_typed(data.edge_types, left[k]));
            let t = choose|t: int|
                #![trigger data.edge_types[t]]
                0 <= t < data.edge_types.len() && data.edge_types[t] == (
                    e.label,
                    (e.src_label, e.dst_label),
                );
            let x = lemma_extension_has_type(data.edge_types, label, i);
            if e.label == ext.edge_label {
                if t < x {
                    assert(data.edge_types[t].0 != data.edge_types[x].0);
                }
                if x < t {
                    assert(data.edge_types[x].0 != data.edge_types[t].0);
                }
            }
            assert(!world.cut.contains(e.id));
            if n - 1 < base {
                assert(steps[n - 1] == world.step(e, label, ext));
            } else {
                assert(world.inserted[n - 1 - base] == e);
                assert(steps[n - 1] == world.new_step(e, ext));
            }
        }
    }
}

/// The sum of what a function says of ways to grow.
pub open spec fn sum_over(exts: Seq<ExtensionView>, value: spec_fn(ExtensionView) -> int) -> int
    decreases exts.len(),
{
    if exts.len() == 0 {
        0
    } else {
        sum_over(exts.drop_last(), value) + value(exts.last())
    }
}

proof fn lemma_sum_same(
    exts: Seq<ExtensionView>,
    a: spec_fn(ExtensionView) -> int,
    b: spec_fn(ExtensionView) -> int,
)
    requires
        forall|i: int| #![trigger exts[i]] 0 <= i < exts.len() ==> a(exts[i]) == b(exts[i]),
    ensures
        sum_over(exts, a) == sum_over(exts, b),
    decreases exts.len(),
{
    if exts.len() > 0 {
        assert(exts[exts.len() - 1] == exts.last());
        assert forall|i: int| #![trigger exts.drop_last()[i]] 0 <= i < exts.drop_last().len() implies
            a(exts.drop_last()[i]) == b(exts.drop_last()[i]) by {
            assert(exts[i] == exts.drop_last()[i]);
        }
        lemma_sum_same(exts.drop_last(), a, b);
    }
}

proof fn lemma_sum_both(
    exts: Seq<ExtensionView>,
    a: spec_fn(ExtensionView) -> int,
    b: spec_fn(ExtensionView) -> int,
    both: spec_fn(ExtensionView) -> int,
)
    requires
        forall|ext: ExtensionView| #[trigger] both(ext) == a(ext) + b(ext),
    ensures
        sum_over(exts, both) == sum_over(exts, a) + sum_over(exts, b),
    decreases exts.len(),
{
    if exts.len() > 0 {
        lemma_sum_both(exts.drop_last(), a, b, both);
        assert(both(exts.last()) == a(exts.last()) + b(exts.last()));
    }
}

proof fn lemma_sum_nothing(exts: Seq<ExtensionView>, value: spec_fn(ExtensionView) -> int)
    requires
        forall|ext: ExtensionView| #[trigger] value(ext) == 0,
    ensures
        sum_over(exts, value) == 0,
    decreases exts.len(),
{
    if exts.len() > 0 {
        lemma_sum_nothing(exts.drop_last(), value);
        assert(value(exts.last()) == 0);
    }
}

spec fn leads_by(ext: ExtensionView, edge_label: Seq<char>, own: Seq<char>) -> bool {
    ext.neighbor_label == own && ext.edge_label == edge_label
}

spec fn share_of_edge(
    e: FlatEdgeView,
    label: Seq<char>,
    ext: ExtensionView,
    changes: Changes,
    v: VertexId,
) -> int {
    let (near, near_label, far) = if ext.outgoing {
        (e.src, e.src_label, e.dst)
    } else {
        (e.dst, e.dst_label, e.src)
    };
    if e.label == ext.edge_label && near_label == label && far == v {
        changes(near)
    } else {
        0
    }
}

/// For one edge, the ways to grow by its type take up each of its directions once.
proof fn lemma_edge_share(
    types: Seq<(Seq<char>, (Seq<char>, Seq<char>))>,
    e: FlatEdgeView,
    label: Seq<char>,
    edge_label: Seq<char>,
    own: Seq<char>,
    changes: Changes,
    v: VertexId,
    here: bool,
)
    requires
        types_are_distinct(types),
        here ==> is_typed(types, e),
        !here ==> forall|i: int| #![trigger types[i]] 0 <= i < types.len() ==> types[i].0 != e.label,
    ensures
        sum_over(
            extensions_from(types, label),
            |ext: ExtensionView|
                if leads_by(ext, edge_label, own) {
                    share_of_edge(e, label, ext, changes, v)
                } else {
                    0
                },
        ) == (if here && e.label == edge_label {
            (if e.src_label == own && e.src == v && e.dst_label == label {
                changes(e.dst)
            } else {
                0
            }) + (if e.dst_label == own && e.dst == v && e.src_label == label {
                changes(e.src)
            } else {
                0
            })
        } else {
            0
        }),
    decreases types.len(),
{
    let value = |ext: ExtensionView|
        if leads_by(ext, edge_label, own) {
            share_of_edge(e, label, ext, changes, v)
        } else {
            0
        };
    if types.len() > 0 {
        let fewer = types.drop_last();
        let (name, (src, dst)) = types.last();
        let before = extensions_from(fewer, label);
        let out = ExtensionView { edge_label: name, neighbor_label: dst, outgoing: true };
        let back = ExtensionView { edge_label: name, neighbor_label: src, outgoing: false };
        let mid = if src == label {
            before.push(out)
        } else {
            before
        };
        let all = extensions_from(types, label);
        assert(before.push(out).drop_last() =~= before);
        assert(mid.push(back).drop_last() =~= mid);
        assert(types[types.len() - 1] == types.last());
        let earlier = here && name != e.label;
        if earlier {
            let t = choose|t: int|
                #![trigger types[t]]
                0 <= t < types.len() && types[t] == (e.label, (e.src_label, e.dst_label));
            assert(fewer[t] == types[t]);
        } else {
            assert forall|i: int| #![trigger fewer[i]] 0 <= i < fewer.len() implies fewer[i].0
                != e.label by {
                assert(fewer[i] == types[i]);
                assert(types[i].0 != types[types.len() - 1].0);
            }
            if here {
                let t = choose|t: int|
                    #![trigger types[t]]
                    0 <= t < types.len() && types[t] == (e.label, (e.src_label, e.dst_label));
                if t < types.len() - 1 {
                    assert(types[t].0 != types[types.len() - 1].0);
                }
            }
        }
        assert(types_are_distinct(fewer)) by {
            assert forall|i: int, j: int|
                #![trigger fewer[i], fewer[j]]
                0 <= i < j < fewer.len() implies fewer[i].0 != fewer[j].0 by {
                assert(types[i].0 != types[j].0);
            }
        }
        lemma_edge_share(fewer, e, label, edge_label, own, changes, v, earlier);
        assert(sum_over(mid, value) == sum_over(before, value) + (if src == label {
            value(out)
        } else {
            0
        }));
        assert(sum_over(all, value) == sum_over(mid, value) + (if dst == label {
            value(back)
        } else {
            0
        }));
    }
}

proof fn lemma_all_ways_feed(
    types: Seq<(Seq<char>, (Seq<char>, Seq<char>))>,
    edges: Seq<FlatEdgeView>,
    label: Seq<char>,
    edge_label: Seq<char>,
    own: Seq<char>,
    changes: Changes,
    v: VertexId,
)
    requires
        types_are_distinct(types),
        forall|i: int| #![trigger edges[i]] 0 <= i < edges.len() ==> is_typed(types, edges[i]),
    ensures
        sum_over(
            extensions_from(types, label),
            |ext: ExtensionView|
                if leads_by(ext, edge_label, own) {
                    passed_on(edges, label, ext, changes, v)
                } else {
                    0
                },
        ) == fed_by(edges, own, edge_label, label, changes, v),
    decreases edges.len(),
{
    let exts = extensions_from(types, label);
    let value = |ext: ExtensionView|
        if leads_by(ext, edge_label, own) {
            passed_on(edges, label, ext, changes, v)
        } else {
            0
        };
    if edges.len() == 0 {
        lemma_sum_nothing(exts, value);
    } else {
        let fewer = edges.drop_last();
        let e = edges.last();
        assert(edges[edges.len() - 1] == e);
        assert forall|i: int| #![trigger fewer[i]] 0 <= i < fewer.len() implies is_typed(
            types,
            fewer[i],
        ) by {
            assert(fewer[i] == edges[i]);
        }
        lemma_all_ways_feed(types, fewer, label, edge_label, own, changes, v);
        lemma_edge_share(types, e, label, edge_label, own, changes, v, true);
        let before = |ext: ExtensionView|
            if leads_by(ext, edge_label, own) {
                passed_on(fewer, label, ext, changes, v)
            } else {
                0
            };
        let here = |ext: ExtensionView|
            if leads_by(ext, edge_label, own) {
                share_of_edge(e, label, ext, changes, v)
            } else {
                0
            };
        assert forall|ext: ExtensionView| #[trigger] value(ext) == before(ext) + here(ext) by {}
        lemma_sum_both(exts, before, here, value);
    }
}

proof fn lemma_walked_sum_over(
    edges: Seq<FlatEdgeView>,
    path: Seq<Seq<char>>,
    v: VertexId,
    exts: Seq<ExtensionView>,
    wanted: spec_fn(ExtensionView) -> bool,
    further: spec_fn(ExtensionView) -> Changes,
)
    ensures
        sum_over(
            exts,
            |ext: ExtensionView|
                if wanted(ext) {
                    walked(edges, path, v, further(ext))
                } else {
                    0
                },
        ) == walked(
            edges,
            path,
            v,
            |u: VertexId|
                sum_over(
                    exts,
                    |ext: ExtensionView|
                        if wanted(ext) {
                            further(ext)(u)
                        } else {
                            0
                        },
                ),
        ),
    decreases exts.len(),
{
    let value = |ext: ExtensionView|
        if wanted(ext) {
            walked(edges, path, v, further(ext))
        } else {
            0
        };
    let sums = |u: VertexId|
        sum_over(
            exts,
            |ext: ExtensionView|
                if wanted(ext) {
                    further(ext)(u)
                } else {
                    0
                },
        );
    if exts.len() == 0 {
        lemma_walked_nothing(edges, path, v, sums);
    } else {
        let fewer = exts.drop_last();
        let ext = exts.last();
        lemma_walked_sum_over(edges, path, v, fewer, wanted, further);
        let before = |u: VertexId|
            sum_over(
                fewer,
                |ext: ExtensionView|
                    if wanted(ext) {
                        further(ext)(u)
                    } else {
                        0
                    },
            );
        if wanted(ext) {
            assert forall|u: VertexId| #[trigger] sums(u) == before(u) + further(ext)(u) by {}
            lemma_walked_sum(edges, path, v, before, further(ext), sums);
        } else {
            assert forall|u: VertexId| #[trigger] sums(u) == before(u) by {}
            lemma_walked_same(edges, path, v, before, sums);
        }
    }
}

/// The change of a vertex along a path read from that vertex on.
pub open spec fn exact_total(all: Seq<Leaf>, path: Seq<Seq<char>>, v: VertexId) -> int
    decreases all.len(),
{
    if all.len() == 0 {
        0
    } else {
        exact_total(all.drop_last(), path, v) + (if all.last().template == path {
            (all.last().changes)(v)
        } else {
            0
        })
    }
}

proof fn lemma_exact_joined(a: Seq<Leaf>, b: Seq<Leaf>, path: Seq<Seq<char>>, v: VertexId)
    ensures
        exact_total(a + b, path, v) == exact_total(a, path, v) + exact_total(b, path, v),
    decreases b.len(),
{
    if b.len() == 0 {
        assert(a + b =~= a);
    } else {
        assert((a + b).drop_last() =~= a + b.drop_last());
        lemma_exact_joined(a, b.drop_last(), path, v);
    }
}

spec fn are_headed(all: Seq<Leaf>) -> bool {
    forall|i: int|
        #![trigger all[i]]
        0 <= i < all.len() ==> all[i].template.len() > 0 && all[i].template[0] == all[i].label
}

/// Whether a path is another one that grew by so many edges.
pub open spec fn is_grown(path: Seq<Seq<char>>, template: Seq<Seq<char>>, by: nat) -> bool {
    path.len() == template.len() + 2 * by && path.skip(2 * by as int) == template
}

proof fn lemma_leaves(
    data: FlatView,
    pending: PendingView,
    world: World,
    template: Seq<Seq<char>>,
    label: Seq<char>,
    changes: Changes,
    res_len: nat,
    path: Seq<Seq<char>>,
    v: VertexId,
)
    requires
        fits_together(data, pending, world),
        extensions_from(data.edge_types, label).len() > 0,
        template.len() > 0,
        template[0] == label,
        !world.gone.contains(v),
    ensures
        are_headed(leaves(world, template, label, changes, res_len)),
        exact_total(leaves(world, template, label, changes, res_len), path, v) == (if is_grown(
            path,
            template,
            res_len,
        ) {
            walked(
                with_changes(data, pending).edges,
                path.take(2 * res_len as int + 1),
                v,
                changes,
            )
        } else {
            0
        }),
    decreases res_len, extensions_from(data.edge_types, label).len() + 1,
{
    let edges = with_changes(data, pending).edges;
    let exts = extensions_from(data.edge_types, label);
    let all = leaves(world, template, label, changes, res_len);
    if res_len == 0 {
        let leaf = Leaf { template, label, changes: of_those_here(world, changes) };
        assert(all =~= seq![leaf]);
        assert(all.drop_last() =~= Seq::empty());
        assert(exact_total(all.drop_last(), path, v) == 0);
        assert(path.skip(0) =~= path);
    } else {
        let n = exts.len() as int;
        lemma_leaves_along(data, pending, world, template, label, changes, res_len, path, v, n);
        assert(exts.take(n) =~= exts);
        let by = 2 * res_len as int;
        let y = path.take(by - 1);
        let further = |ext: ExtensionView| spread_along(world.steps(label, ext), changes);
        let value = |ext: ExtensionView|
            if is_grown(path, grown_path(ext, template), (res_len - 1) as nat) {
                walked(edges, y, v, further(ext))
            } else {
                0
            };
        let stated = |ext: ExtensionView|
            if is_grown(path, grown_path(ext, template), (res_len - 1) as nat) {
                walked(
                    with_changes(data, pending).edges,
                    path.take(2 * res_len - 1),
                    v,
                    spread_along(world.steps(label, ext), changes),
                )
            } else {
                0
            };
        lemma_sum_same(exts, stated, value);
        assert(exact_total(all, path, v) == sum_over(exts, stated));
        if is_grown(path, template, res_len) {
            let own = path[by - 2];
            let edge_label = path[by - 1];
            assert(path[by] == template[0]) by {
                assert(path.skip(by)[0] == template[0]);
            }
            let wanted = |ext: ExtensionView| leads_by(ext, edge_label, own);
            let asked = |ext: ExtensionView|
                if wanted(ext) {
                    walked(edges, y, v, further(ext))
                } else {
                    0
                };
            assert forall|i: int| #![trigger exts[i]] 0 <= i < exts.len() implies value(exts[i])
                == asked(exts[i]) by {
                let grown = grown_path(exts[i], template);
                let tail = path.skip(by - 2);
                assert(tail =~= seq![own, edge_label] + template) by {
                    assert(path.skip(by) == template);
                    assert forall|k: int| 0 <= k < tail.len() implies tail[k] == (seq![
                        own,
                        edge_label,
                    ] + template)[k] by {
                        if k >= 2 {
                            assert(path.skip(by)[k - 2] == path[by + k - 2]);
                        }
                    }
                }
                if wanted(exts[i]) {
                    assert(tail == grown);
                } else {
                    assert(grown[0] == exts[i].neighbor_label && grown[1] == exts[i].edge_label);
                    assert(tail[0] == own && tail[1] == edge_label);
                }
            }
            lemma_sum_same(exts, value, asked);
            lemma_walked_sum_over(edges, y, v, exts, wanted, further);
            let sums = |u: VertexId|
                sum_over(
                    exts,
                    |ext: ExtensionView|
                        if wanted(ext) {
                            further(ext)(u)
                        } else {
                            0
                        },
                );
            let fed = |u: VertexId| fed_by(edges, own, edge_label, label, changes, u);
            assert forall|u: VertexId| #[trigger] sums(u) == fed(u) by {
                let a = |ext: ExtensionView|
                    if wanted(ext) {
                        further(ext)(u)
                    } else {
                        0
                    };
                let b = |ext: ExtensionView|
                    if leads_by(ext, edge_label, own) {
                        passed_on(edges, label, ext, changes, u)
                    } else {
                        0
                    };
                assert forall|i: int| #![trigger exts[i]] 0 <= i < exts.len() implies a(exts[i])
                    == b(exts[i]) by {
                    changes_spread_over_the_changed_graph(
                        data,
                        pending,
                        world,
                        label,
                        i,
                        changes,
                        u,
                    );
                }
                lemma_sum_same(exts, a, b);
                lemma_all_ways_feed(
                    data.edge_types,
                    edges,
                    label,
                    edge_label,
                    own,
                    changes,
                    u,
                );
            }
            lemma_walked_same(edges, y, v, sums, fed);
            assert(y.last() == own);
            lemma_one_edge_more(edges, y, edge_label, label, v, changes);
            assert(y + seq![edge_label, label] =~= path.take(by + 1));
            let last = |u: VertexId| fed_by(edges, y.last(), edge_label, label, changes, u);
            lemma_walked_same(edges, y, v, last, fed);
        } else {
            assert forall|i: int| #![trigger exts[i]] 0 <= i < exts.len() implies value(exts[i])
                == 0 by {
                let grown = grown_path(exts[i], template);
                if is_grown(path, grown, (res_len - 1) as nat) {
                    assert(path.skip(by) =~= template) by {
                        assert forall|k: int| 0 <= k < template.len() implies path.skip(by)[k]
                            == template[k] by {
                            assert(path.skip(by - 2)[k + 2] == grown[k + 2]);
                        }
                    }
                }
            }
            let none = |ext: ExtensionView| 0int;
            lemma_sum_same(exts, value, none);
            lemma_sum_nothing(exts, none);
        }
    }
}

proof fn lemma_leaves_along(
    data: FlatView,
    pending: PendingView,
    world: World,
    template: Seq<Seq<char>>,
    label: Seq<char>,
    changes: Changes,
    res_len: nat,
    path: Seq<Seq<char>>,
    v: VertexId,
    n: int,
)
    requires
        fits_together(data, pending, world),
        template.len() > 0,
        template[0] == label,
        !world.gone.contains(v),
        res_len > 0,
        0 <= n <= extensions_from(data.edge_types, label).len(),
    ensures
        are_headed(leaves_along(world, template, label, changes, res_len, n as nat)),
        exact_total(leaves_along(world, template, label, changes, res_len, n as nat), path, v)
            == sum_over(
            extensions_from(data.edge_types, label).take(n),
            |ext: ExtensionView|
                if is_grown(path, grown_path(ext, template), (res_len - 1) as nat) {
                    walked(
                        with_changes(data, pending).edges,
                        path.take(2 * res_len - 1),
                        v,
                        spread_along(world.steps(label, ext), changes),
                    )
                } else {
                    0
                },
        ),
    decreases res_len, n,
{
    let edges = with_changes(data, pending).edges;
    let exts = extensions_from(data.edge_types, label);
    if n > 0 {
        lemma_leaves_along(data, pending, world, template, label, changes, res_len, path, v, n - 1);
        assert(exts.take(n).drop_last() =~= exts.take(n - 1));
        let ext = exts[n - 1];
        assert(exts.take(n).last() == ext);
        let further = spread_along(world.steps(label, ext), changes);
        let grown = grown_path(ext, template);
        let before = leaves_along(world, template, label, changes, res_len, (n - 1) as nat);
        let all = leaves_along(world, template, label, changes, res_len, n as nat);
        if no_change(further) {
            lemma_walked_nothing(edges, path.take(2 * res_len - 1), v, further);
            assert(all =~= before);
        } else {
            let t = lemma_extension_has_type(data.edge_types, label, n - 1);
            lemma_type_gives_extension(data.edge_types, ext.neighbor_label, t);
            let inner = leaves(world, grown, ext.neighbor_label, further, (res_len - 1) as nat);
            lemma_leaves(
                data,
                pending,
                world,
                grown,
                ext.neighbor_label,
                further,
                (res_len - 1) as nat,
                path,
                v,
            );
            lemma_exact_joined(before, inner, path, v);
            assert(all == before + inner);
            assert forall|i: int| #![trigger all[i]] 0 <= i < all.len() implies
                all[i].template.len() > 0 && all[i].template[0] == all[i].label by {
                if i < before.len() {
                    assert(all[i] == before[i]);
                } else {
                    assert(all[i] == inner[i - before.len()]);
                }
            }
            assert(2 * (res_len - 1) + 1 == 2 * res_len - 1);
        }
    }
}

proof fn lemma_total_by_direction(
    all: Seq<Leaf>,
    path: Seq<Seq<char>>,
    label: Seq<char>,
    v: VertexId,
)
    requires
        are_headed(all),
        path.len() > 0,
        first_direction(path) == path,
    ensures
        total(all, path, label, v) == (if path[0] == label {
            exact_total(all, path, v)
        } else {
            0
        }) + (if path.reverse() != path && path.last() == label {
            exact_total(all, path.reverse(), v)
        } else {
            0
        }),
    decreases all.len(),
{
    if all.len() > 0 {
        let fewer = all.drop_last();
        let leaf = all.last();
        assert(all[all.len() - 1] == leaf);
        assert forall|i: int| #![trigger fewer[i]] 0 <= i < fewer.len() implies
            fewer[i].template.len() > 0 && fewer[i].template[0] == fewer[i].label by {
            assert(fewer[i] == all[i]);
        }
        lemma_total_by_direction(fewer, path, label, v);
        let t = leaf.template;
        assert(t.reverse().reverse() =~= t);
        assert(path.reverse().reverse() =~= path);
        assert(path.reverse()[0] == path.last());
        crate::pattern::first_direction_ignores_direction(path);
        assert(leaf.is_at(path, label) == ((t == path || t == path.reverse()) && leaf.label
            == label));
    }
}

/// What becomes of the changes of an entry along a path and for a label: the sum of the changes
/// over the ends of all walks through the changed graph, from the vertex on, whose labels are
/// those that the path has before the entry's own; the path may be read in either direction.
pub open spec fn walked_for(
    edges: Seq<FlatEdgeView>,
    template: Seq<Seq<char>>,
    by: nat,
    changes: Changes,
    path: Seq<Seq<char>>,
    label: Seq<char>,
    v: VertexId,
) -> int {
    (if path[0] == label && is_grown(path, template, by) {
        walked(edges, path.take(2 * by as int + 1), v, changes)
    } else {
        0
    }) + (if path.reverse() != path && path.last() == label && is_grown(
        path.reverse(),
        template,
        by,
    ) {
        walked(edges, path.reverse().take(2 * by as int + 1), v, changes)
    } else {
        0
    })
}

/// The sum over the first `n` entries of a log.
pub open spec fn walked_for_all(
    edges: Seq<FlatEdgeView>,
    entries: Seq<UpdateEntry>,
    n: int,
    path: Seq<Seq<char>>,
    label: Seq<char>,
    v: VertexId,
) -> int
    decreases n,
{
    if n <= 0 {
        0
    } else {
        let entry = entries[n - 1];
        walked_for_all(edges, entries, n - 1, path, label, v) + walked_for(
            edges,
            label_views(entry.template.raw@),
            entry.res_len as nat,
            changes_of(entry.nodes),
            path,
            label,
            v,
        )
    }
}

proof fn lemma_total_joined(
    a: Seq<Leaf>,
    b: Seq<Leaf>,
    path: Seq<Seq<char>>,
    label: Seq<char>,
    v: VertexId,
)
    ensures
        total(a + b, path, label, v) == total(a, path, label, v) + total(b, path, label, v),
    decreases b.len(),
{
    if b.len() == 0 {
        assert(a + b =~= a);
    } else {
        assert((a + b).drop_last() =~= a + b.drop_last());
        lemma_total_joined(a, b.drop_last(), path, label, v);
    }
}

/// The change of a vertex along a path is counted by walks through the data as it is after the
/// pending changes are made: for every entry of the log, what is logged at the ends of the walks
/// that lead from the vertex along the path to where the entry's own edge begins.
pub proof fn changes_are_counted_by_walks(
    data: FlatView,
    pending: PendingView,
    world: World,
    entries: Seq<UpdateEntry>,
    n: int,
    path: Seq<Seq<char>>,
    label: Seq<char>,
    v: VertexId,
)
    requires
        fits_together(data, pending, world),
        0 <= n <= entries.len(),
        forall|i: int|
            #![trigger entries[i]]
            0 <= i < entries.len() ==> entries[i].template.raw@.len() > 0
                && entries[i].template.raw@[0]@ == entries[i].label@ && extensions_from(
                data.edge_types,
                entries[i].label@,
            ).len() > 0,
        path.len() > 0,
        first_direction(path) == path,
        !world.gone.contains(v),
    ensures
        total(leaves_of(world, entries, n), path, label, v) == walked_for_all(
            with_changes(data, pending).edges,
            entries,
            n,
            path,
            label,
            v,
        ),
    decreases n,
{
    if n > 0 {
        changes_are_counted_by_walks(data, pending, world, entries, n - 1, path, label, v);
        let entry = entries[n - 1];
        let template = label_views(entry.template.raw@);
        let changes = changes_of(entry.nodes);
        let by = entry.res_len as nat;
        let here = leaves(world, template, entry.label@, changes, by);
        assert(template[0] == entry.label@);
        lemma_leaves(data, pending, world, template, entry.label@, changes, by, path, v);
        lemma_leaves(data, pending, world, template, entry.label@, changes, by, path.reverse(), v);
        lemma_total_by_direction(here, path, label, v);
        lemma_total_joined(leaves_of(world, entries, n - 1), here, path, label, v);
    }
}

/// How many inserted edges with a label lead from a vertex to vertices with another label, in one
/// direction or the other.
pub open spec fn new_edges_at(
    inserted: Seq<FlatEdgeView>,
    own: Seq<char>,
    edge_label: Seq<char>,
    other: Seq<char>,
    v: VertexId,
) -> int {
    fed_by(inserted, own, edge_label, other, |w: VertexId| 1, v)
}

/// How many walks there are from a vertex along a path whose last edge is an inserted one.
pub open spec fn new_walks(
    edges: Seq<FlatEdgeView>,
    inserted: Seq<FlatEdgeView>,
    path: Seq<Seq<char>>,
    v: VertexId,
) -> int {
    let n = path.len() as int;
    walked(
        edges,
        path.take(n - 2),
        v,
        |u: VertexId| new_edges_at(inserted, path[n - 3], path[n - 2], path[n - 1], u),
    )
}

/// Whether a log holds exactly that edges were inserted, with paths to grow by so many edges.
pub open spec fn logs_insertions(
    entries: Seq<UpdateEntry>,
    inserted: Seq<FlatEdgeView>,
    by: nat,
) -> bool {
    &&& entries_wf(entries)
    &&& forall|i: int|
        #![trigger entries[i]]
        0 <= i < entries.len() ==> entries[i].template.raw@.len() == 3 && entries[i].res_len == by
    &&& forall|own: Seq<char>, edge_label: Seq<char>, other: Seq<char>, v: VertexId| #[trigger]
        new_edges_at(inserted, own, edge_label, other, v) == logged(
            entries,
            first_direction(seq![own, edge_label, other]),
            own,
            by,
            v,
        )
}

proof fn lemma_same_three(x: Seq<Seq<char>>, y: Seq<Seq<char>>)
    requires
        x.len() == 3,
        y.len() == 3,
        x[0] == y[0],
        first_direction(x) == first_direction(y),
    ensures
        x == y,
{
    assert(x.reverse().reverse() =~= x);
    assert(y.reverse().reverse() =~= y);
    if x != y {
        assert(x == y.reverse());
        assert(x[0] == y[2] && x[1] == y[1] && x[2] == y[0]);
        assert(x =~= y);
    }
}

spec fn in_direction(
    edges: Seq<FlatEdgeView>,
    entries: Seq<UpdateEntry>,
    n: int,
    by: nat,
    path: Seq<Seq<char>>,
    v: VertexId,
) -> int
    decreases n,
{
    if n <= 0 {
        0
    } else {
        let entry = entries[n - 1];
        in_direction(edges, entries, n - 1, by, path, v) + (if is_grown(
            path,
            label_views(entry.template.raw@),
            by,
        ) {
            walked(edges, path.take(2 * by as int + 1), v, changes_of(entry.nodes))
        } else {
            0
        })
    }
}

proof fn lemma_in_direction(
    edges: Seq<FlatEdgeView>,
    entries: Seq<UpdateEntry>,
    n: int,
    by: nat,
    path: Seq<Seq<char>>,
    v: VertexId,
)
    requires
        entries_wf(entries),
        0 <= n <= entries.len(),
        forall|i: int|
            #![trigger entries[i]]
            0 <= i < entries.len() ==> entries[i].template.raw@.len() == 3 && entries[i].res_len
                == by,
        path.len() == 2 * by + 3,
    ensures
        in_direction(edges, entries, n, by, path, v) == walked(
            edges,
            path.take(2 * by as int + 1),
            v,
            |u: VertexId|
                logged(
                    entries.take(n),
                    first_direction(path.skip(2 * by as int)),
                    path[2 * by as int],
                    by,
                    u,
                ),
        ),
    decreases n,
{
    let tail = path.skip(2 * by as int);
    let own = path[2 * by as int];
    let key = first_direction(tail);
    let front = path.take(2 * by as int + 1);
    let here = |u: VertexId| logged(entries.take(n), key, own, by, u);
    assert(tail[0] == own);
    if n == 0 {
        lemma_walked_nothing(edges, front, v, here);
    } else {
        lemma_in_direction(edges, entries, n - 1, by, path, v);
        let entry = entries[n - 1];
        let raw = label_views(entry.template.raw@);
        let before = |u: VertexId| logged(entries.take(n - 1), key, own, by, u);
        assert(entries.take(n).drop_last() =~= entries.take(n - 1));
        assert(entries.take(n).last() == entry);
        assert(raw[0] == entry.label@);
        assert(entry.template@ == first_direction(raw));
        if is_grown(path, raw, by) {
            assert(raw == tail);
            assert(entry.is_for(key, own, by));
            let shorter = entries.take(n - 1);
            assert forall|i: int| 0 <= i < shorter.len() implies !(#[trigger] shorter[i]).is_for(
                key,
                own,
                by,
            ) by {
                assert(!entries[n - 1].is_for(
                    entries[i].template@,
                    entries[i].label@,
                    entries[i].res_len as nat,
                ));
            }
            assert forall|u: VertexId| #[trigger] before(u) == 0 by {
                lemma_logged_nowhere(shorter, key, own, by, u);
            }
            lemma_walked_nothing(edges, front, v, before);
            lemma_walked_same(edges, front, v, changes_of(entry.nodes), here);
        } else {
            if entry.is_for(key, own, by) {
                lemma_same_three(raw, tail);
            }
            lemma_walked_same(edges, front, v, before, here);
        }
    }
}

proof fn lemma_by_direction(
    edges: Seq<FlatEdgeView>,
    entries: Seq<UpdateEntry>,
    n: int,
    by: nat,
    path: Seq<Seq<char>>,
    label: Seq<char>,
    v: VertexId,
)
    requires
        0 <= n <= entries.len(),
        forall|i: int| #![trigger entries[i]] 0 <= i < entries.len() ==> entries[i].res_len == by,
    ensures
        walked_for_all(edges, entries, n, path, label, v) == (if path[0] == label {
            in_direction(edges, entries, n, by, path, v)
        } else {
            0
        }) + (if path.reverse() != path && path.last() == label {
            in_direction(edges, entries, n, by, path.reverse(), v)
        } else {
            0
        }),
    decreases n,
{
    if n > 0 {
        lemma_by_direction(edges, entries, n - 1, by, path, label, v);
    }
}

/// The edges that a batch inserts change the degree of a vertex along a path of full length by the
/// number of walks through the changed graph, from the vertex along the path, whose last edge is
/// one of them. A path that reads differently backwards may be walked from either of its ends.
pub proof fn insertions_are_counted_by_new_walks(
    data: FlatView,
    pending: PendingView,
    world: World,
    entries: Seq<UpdateEntry>,
    by: nat,
    path: Seq<Seq<char>>,
    label: Seq<char>,
    v: VertexId,
)
    requires
        fits_together(data, pending, world),
        logs_insertions(entries, pending.inserted_edges, by),
        forall|i: int|
            #![trigger entries[i]]
            0 <= i < entries.len() ==> extensions_from(data.edge_types, entries[i].label@).len()
                > 0,
        path.len() == 2 * by + 3,
        first_direction(path) == path,
        !world.gone.contains(v),
    ensures
        ({
            let edges = with_changes(data, pending).edges;
            let change = total(leaves_of(world, entries, entries.len() as int), path, label, v);
            change == (if path[0] == label {
                new_walks(edges, pending.inserted_edges, path, v)
            } else {
                0
            }) + (if path.reverse() != path && path.last() == label {
                new_walks(edges, pending.inserted_edges, path.reverse(), v)
            } else {
                0
            })
        }),
{
    let edges = with_changes(data, pending).edges;
    let n = entries.len() as int;
    assert forall|i: int|
        #![trigger entries[i]]
        0 <= i < entries.len() implies entries[i].template.raw@.len() > 0
        && entries[i].template.raw@[0]@ == entries[i].label@ && extensions_from(
        data.edge_types,
        entries[i].label@,
    ).len() > 0 by {
        assert(begins_with_label(entries[i]));
    }
    changes_are_counted_by_walks(data, pending, world, entries, n, path, label, v);
    lemma_by_direction(edges, entries, n, by, path, label, v);
    lemma_direction_is_new(edges, entries, pending.inserted_edges, by, path, v);
    lemma_direction_is_new(edges, entries, pending.inserted_edges, by, path.reverse(), v);
}

proof fn lemma_direction_is_new(
    edges: Seq<FlatEdgeView>,
    entries: Seq<UpdateEntry>,
    inserted: Seq<FlatEdgeView>,
    by: nat,
    path: Seq<Seq<char>>,
    v: VertexId,
)
    requires
        logs_insertions(entries, inserted, by),
        path.len() == 2 * by + 3,
    ensures
        in_direction(edges, entries, entries.len() as int, by, path, v) == new_walks(
            edges,
            inserted,
            path,
            v,
        ),
{
    let n = entries.len() as int;
    let m = path.len() as int;
    lemma_in_direction(edges, entries, n, by, path, v);
    assert(entries.take(n) =~= entries);
    let tail = path.skip(2 * by as int);
    assert(tail =~= seq![path[m - 3], path[m - 2], path[m - 1]]);
    let a = |u: VertexId|
        logged(
            entries.take(n),
            first_direction(path.skip(2 * by as int)),
            path[2 * by as int],
            by,
            u,
        );
    let b = |u: VertexId| new_edges_at(inserted, path[m - 3], path[m - 2], path[m - 1], u);
    assert forall|u: VertexId| #[trigger] a(u) == b(u) by {
        assert(new_edges_at(inserted, path[m - 3], path[m - 2], path[m - 1], u) == logged(
            entries,
            first_direction(seq![path[m - 3], path[m - 2], path[m - 1]]),
            path[m - 3],
            by,
            u,
        ));
    }
    lemma_walked_same(edges, path.take(2 * by as int + 1), v, a, b);
}

/// A log of insertions in which one more insertion is recorded is the log of these and that one.
pub proof fn recorded_insertions_are_logged(
    before: GCardUpdateLog,
    after: GCardUpdateLog,
    inserted: Seq<FlatEdgeView>,
    e: FlatEdgeView,
)
    requires
        logs_insertions(before.entries@, inserted, before.growth()),
        after.wf(),
        after.max_k == before.max_k,
        forall|p: Seq<Seq<char>>, l: Seq<char>, r: nat, x: VertexId| #[trigger]
            after.change(p, l, r, x) == before.change(p, l, r, x) + (if r == before.growth() {
                edge_change(p, l, x, e.src, e.src_label, e.dst, e.dst_label, e.label, 1)
            } else {
                0
            }),
        heads(after.entries@) == with_edge_heads(
            heads(before.entries@),
            e.src_label,
            e.dst_label,
            e.label,
            before.growth(),
        ),
    ensures
        logs_insertions(after.entries@, inserted.push(e), after.growth()),
{
    let by = before.growth();
    let more = inserted.push(e);
    assert(more.drop_last() =~= inserted);
    assert forall|own: Seq<char>, edge_label: Seq<char>, other: Seq<char>, v: VertexId| #[trigger]
        new_edges_at(more, own, edge_label, other, v) == logged(
            after.entries@,
            first_direction(seq![own, edge_label, other]),
            own,
            by,
            v,
        ) by {
        let three = seq![own, edge_label, other];
        let key = first_direction(three);
        let forth = seq![e.src_label, e.label, e.dst_label];
        let back = seq![e.dst_label, e.label, e.src_label];
        assert(after.change(key, own, by, v) == before.change(key, own, by, v) + edge_change(
            key,
            own,
            v,
            e.src,
            e.src_label,
            e.dst,
            e.dst_label,
            e.label,
            1,
        ));
        assert(new_edges_at(inserted, own, edge_label, other, v) == logged(
            before.entries@,
            key,
            own,
            by,
            v,
        ));
        if own == e.src_label && key == first_direction(forth) {
            lemma_same_three(three, forth);
        }
        if own == e.dst_label && key == first_direction(back) {
            lemma_same_three(three, back);
        }
        assert(three[0] == own && three[1] == edge_label && three[2] == other);
        assert(forth[0] == e.src_label && forth[1] == e.label && forth[2] == e.dst_label);
        assert(back[0] == e.dst_label && back[1] == e.label && back[2] == e.src_label);
        if own == e.src_label && edge_label == e.label && other == e.dst_label {
            assert(three =~= forth);
        }
        if own == e.dst_label && edge_label == e.label && other == e.src_label {
            assert(three =~= back);
        }
    }
    let known = heads(before.entries@);
    let now = heads(after.entries@);
    assert forall|i: int| #![trigger known[i]] 0 <= i < known.len() implies known[i].path.len() == 3
        && known[i].res_len == by by {
        assert(before.entries@[i].template.raw@.len() == 3);
    }
    let one = with_head(known, edge_head(e.src_label, e.label, e.dst_label, by));
    assert forall|i: int| #![trigger one[i]] 0 <= i < one.len() implies one[i].path.len() == 3
        && one[i].res_len == by by {
        if i < known.len() {
            assert(one[i] == known[i]);
        }
    }
    assert forall|i: int| #![trigger now[i]] 0 <= i < now.len() implies now[i].path.len() == 3
        && now[i].res_len == by by {
        if i < one.len() {
            assert(now[i] == one[i]);
        }
    }
    assert forall|i: int|
        #![trigger after.entries@[i]]
        0 <= i < after.entries@.len() implies after.entries@[i].template.raw@.len() == 3
        && after.entries@[i].res_len == by by {
        assert(now[i].path.len() == 3 && now[i].res_len == by);
    }
}

/// A log without entries is one of no insertions.
pub proof fn empty_logs_log_no_insertions(by: nat)
    ensures
        logs_insertions(Seq::empty(), Seq::empty(), by),
{
}

} // verus!
