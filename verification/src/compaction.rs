//! What a log of changes means for the degrees along longer paths.
use crate::deltas::{change_among, fits, lemma_listed, lemma_where, Deltas};
use crate::flat::{FlatEdge, FlatEdgeView, FlatGraph, FlatView};
use crate::pattern::{first_direction, AltKey};
use crate::pending::{extension_views, extensions_from, Extension, ExtensionView};
use crate::query::{EdgeId, VertexId};
use crate::statistic::PathKey;
use crate::table::Table;
use crate::text::{copy_labels, is_text, label_views};
use crate::update_log::UpdateEntry;
use std::collections::HashSet;
use vstd::prelude::*;
use vstd::string::*;

verus! {

broadcast use vstd::std_specs::hash::group_hash_axioms;

/// By how much the degrees of vertices change.
pub type Changes = spec_fn(VertexId) -> int;

/// The changes that are listed.
pub open spec fn changes_of(deltas: Deltas) -> Changes {
    |v: VertexId| deltas.at(v)
}

/// The data that changes spread through: the edges that are there, those that come, the edges
/// that go, and the vertices that went or go.
pub struct World {
    pub data: FlatView,
    pub inserted: Seq<FlatEdgeView>,
    pub cut: Set<EdgeId>,
    pub gone: Set<VertexId>,
    pub leaving: Set<VertexId>,
}

impl World {
    /// Whether a change may spread from one vertex to another.
    pub open spec fn lets_pass(self, from: VertexId, to: VertexId) -> bool {
        !self.gone.contains(from) && !self.gone.contains(to) && !self.leaving.contains(to)
    }

    /// Between which vertices a change spreads along an edge.
    pub open spec fn step(self, e: FlatEdgeView, label: Seq<char>, ext: ExtensionView) -> Option<
        (VertexId, VertexId),
    > {
        let from = if ext.outgoing {
            e.src
        } else {
            e.dst
        };
        let to = if ext.outgoing {
            e.dst
        } else {
            e.src
        };
        let from_label = if ext.outgoing {
            e.src_label
        } else {
            e.dst_label
        };
        if e.label == ext.edge_label && from_label == label && !self.cut.contains(e.id)
            && self.lets_pass(from, to) {
            Some((from, to))
        } else {
            None
        }
    }

    /// Between which vertices a change spreads along an edge that comes.
    pub open spec fn new_step(self, e: FlatEdgeView, ext: ExtensionView) -> Option<
        (VertexId, VertexId),
    > {
        let from = if ext.outgoing {
            e.src
        } else {
            e.dst
        };
        let to = if ext.outgoing {
            e.dst
        } else {
            e.src
        };
        if e.label == ext.edge_label && self.lets_pass(from, to) {
            Some((from, to))
        } else {
            None
        }
    }

    /// Between which vertices a change spreads, edge by edge.
    pub open spec fn steps(self, label: Seq<char>, ext: ExtensionView) -> Seq<
        Option<(VertexId, VertexId)>,
    > {
        self.data.edges.map_values(|e: FlatEdgeView| self.step(e, label, ext))
            + self.inserted.map_values(|e: FlatEdgeView| self.new_step(e, ext))
    }
}

/// The change that gets to a vertex.
pub open spec fn spread(
    steps: Seq<Option<(VertexId, VertexId)>>,
    changes: Changes,
    v: VertexId,
) -> int
    decreases steps.len(),
{
    if steps.len() == 0 {
        0
    } else {
        spread(steps.drop_last(), changes, v) + (match steps.last() {
            Some((from, to)) => if to == v {
                changes(from)
            } else {
                0
            },
            None => 0,
        })
    }
}

/// The changes that get to vertices.
pub open spec fn spread_along(steps: Seq<Option<(VertexId, VertexId)>>, changes: Changes) -> Changes {
    |v: VertexId| spread(steps, changes, v)
}

/// Whether a change on the way does not fit.
pub open spec fn step_overflows(
    steps: Seq<Option<(VertexId, VertexId)>>,
    changes: Changes,
) -> bool {
    exists|n: int, v: VertexId|
        #![trigger spread(steps.take(n), changes, v)]
        0 <= n <= steps.len() && !fits(spread(steps.take(n), changes, v))
}

/// Whether nothing changes.
pub open spec fn no_change(changes: Changes) -> bool {
    forall|v: VertexId| #[trigger] changes(v) == 0
}

/// Changes along a path that does not grow any more.
pub struct Leaf {
    pub template: Seq<Seq<char>>,
    pub label: Seq<char>,
    pub changes: Changes,
}

/// Changes without those of vertices that went.
pub open spec fn of_those_here(world: World, changes: Changes) -> Changes {
    |v: VertexId|
        if world.gone.contains(v) {
            0
        } else {
            changes(v)
        }
}

/// A path that grew by an edge at its beginning.
pub open spec fn grown_path(ext: ExtensionView, template: Seq<Seq<char>>) -> Seq<Seq<char>> {
    seq![ext.neighbor_label, ext.edge_label] + template
}

/// What becomes of changes along a path that may grow by so many edges. Where there is no edge to
/// grow by, the path stays as it is.
pub open spec fn leaves(
    world: World,
    template: Seq<Seq<char>>,
    label: Seq<char>,
    changes: Changes,
    res_len: nat,
) -> Seq<Leaf>
    decreases res_len, extensions_from(world.data.edge_types, label).len() + 1,
{
    let exts = extensions_from(world.data.edge_types, label);
    if res_len == 0 || exts.len() == 0 {
        seq![Leaf { template, label, changes: of_those_here(world, changes) }]
    } else {
        leaves_along(world, template, label, changes, res_len, exts.len())
    }
}

/// What becomes of changes along a path that grows in one of the first `n` ways.
pub open spec fn leaves_along(
    world: World,
    template: Seq<Seq<char>>,
    label: Seq<char>,
    changes: Changes,
    res_len: nat,
    n: nat,
) -> Seq<Leaf>
    decreases res_len, n,
{
    if n == 0 || res_len == 0 {
        Seq::empty()
    } else {
        let ext = extensions_from(world.data.edge_types, label)[n - 1];
        let further = spread_along(world.steps(label, ext), changes);
        leaves_along(world, template, label, changes, res_len, (n - 1) as nat) + (if no_change(
            further,
        ) {
            Seq::empty()
        } else {
            leaves(
                world,
                grown_path(ext, template),
                ext.neighbor_label,
                further,
                (res_len - 1) as nat,
            )
        })
    }
}

/// Whether a change does not fit while the paths grow.
pub open spec fn growth_overflows(
    world: World,
    label: Seq<char>,
    changes: Changes,
    res_len: nat,
) -> bool
    decreases res_len, extensions_from(world.data.edge_types, label).len() + 1,
{
    res_len > 0 && growth_overflows_along(
        world,
        label,
        changes,
        res_len,
        extensions_from(world.data.edge_types, label).len(),
    )
}

/// Whether a change does not fit while the paths grow in one of the first `n` ways.
pub open spec fn growth_overflows_along(
    world: World,
    label: Seq<char>,
    changes: Changes,
    res_len: nat,
    n: nat,
) -> bool
    decreases res_len, n,
{
    if n == 0 || res_len == 0 {
        false
    } else {
        let ext = extensions_from(world.data.edge_types, label)[n - 1];
        let further = spread_along(world.steps(label, ext), changes);
        ||| growth_overflows_along(world, label, changes, res_len, (n - 1) as nat)
        ||| step_overflows(world.steps(label, ext), changes)
        ||| !no_change(further) && growth_overflows(
            world,
            ext.neighbor_label,
            further,
            (res_len - 1) as nat,
        )
    }
}

impl Leaf {
    /// Whether the changes are along a path, at the vertices with a label.
    pub open spec fn is_at(self, path: Seq<Seq<char>>, label: Seq<char>) -> bool {
        first_direction(self.template) == path && self.label == label
    }
}

/// The change of a vertex with a label along a path.
pub open spec fn total(
    all: Seq<Leaf>,
    path: Seq<Seq<char>>,
    label: Seq<char>,
    v: VertexId,
) -> int
    decreases all.len(),
{
    if all.len() == 0 {
        0
    } else {
        total(all.drop_last(), path, label, v) + (if all.last().is_at(path, label) {
            (all.last().changes)(v)
        } else {
            0
        })
    }
}

/// Whether there are changes along a path, at the vertices with a label.
pub open spec fn has_leaf(all: Seq<Leaf>, path: Seq<Seq<char>>, label: Seq<char>) -> bool {
    exists|i: int| 0 <= i < all.len() && (#[trigger] all[i]).is_at(path, label)
}

/// Whether a total does not fit on the way.
pub open spec fn total_overflows(all: Seq<Leaf>) -> bool {
    exists|n: int, path: Seq<Seq<char>>, label: Seq<char>, v: VertexId|
        #![trigger total(all.take(n), path, label, v)]
        0 <= n <= all.len() && !fits(total(all.take(n), path, label, v))
}

proof fn lemma_prefix_overflows(first: Seq<Leaf>, rest: Seq<Leaf>)
    requires
        total_overflows(first),
    ensures
        total_overflows(first + rest),
{
    let (n, path, label, v) = choose|n: int, path: Seq<Seq<char>>, label: Seq<char>, v: VertexId|
        #![trigger total(first.take(n), path, label, v)]
        0 <= n <= first.len() && !fits(total(first.take(n), path, label, v));
    assert((first + rest).take(n) =~= first.take(n));
}

/// Whether totals are listed, and fit on the way.
pub open spec fn is_sum(sums: Table<PathKey, Deltas>, all: Seq<Leaf>) -> bool {
    &&& !total_overflows(all)
    &&& sums.wf()
    &&& forall|i: int| 0 <= i < sums.entries@.len() ==> (#[trigger] sums.entries@[i]).1.wf()
    &&& forall|path: Seq<Seq<char>>, label: Seq<char>| #[trigger]
        sums@.contains_key((label, path)) <==> has_leaf(all, path, label)
    &&& forall|path: Seq<Seq<char>>, label: Seq<char>, v: VertexId| #[trigger]
        total(all, path, label, v) == (if sums@.contains_key((label, path)) {
            sums@[(label, path)].at(v)
        } else {
            0
        })
}

/// What changes do not spread through.
#[derive(Debug)]
pub struct Barriers {
    pub cut: HashSet<EdgeId>,
    pub gone: HashSet<VertexId>,
    pub leaving: HashSet<VertexId>,
}

/// The data that changes spread through.
pub open spec fn world_of(flat_graph: FlatGraph, barriers: Barriers) -> World {
    World {
        data: flat_graph@,
        inserted: flat_graph.pending@.inserted_edges,
        cut: barriers.cut@,
        gone: barriers.gone@,
        leaving: barriers.leaving@,
    }
}

impl Barriers {
    fn let_pass(&self, from: VertexId, to: VertexId) -> (result: bool)
        ensures
            result == (!self.gone@.contains(from) && !self.gone@.contains(to)
                && !self.leaving@.contains(to)),
    {
        !self.gone.contains(&from) && !self.gone.contains(&to) && !self.leaving.contains(&to)
    }

    fn step_along(&self, e: &FlatEdge, label: &str, ext: &Extension, Ghost(world): Ghost<World>) -> (result:
        Option<(VertexId, VertexId)>)
        requires
            world.cut == self.cut@,
            world.gone == self.gone@,
            world.leaving == self.leaving@,
        ensures
            result == world.step(e@, label@, ext@),
    {
        let from: VertexId = if ext.outgoing {
            e.src
        } else {
            e.dst
        };
        let to: VertexId = if ext.outgoing {
            e.dst
        } else {
            e.src
        };
        let from_label: &str = if ext.outgoing {
            e.src_label.as_str()
        } else {
            e.dst_label.as_str()
        };
        if is_text(e.label.as_str(), ext.edge_label.as_str()) && is_text(from_label, label)
            && !self.cut.contains(&e.id) && self.let_pass(from, to) {
            Some((from, to))
        } else {
            None
        }
    }

    fn step_along_new(&self, e: &FlatEdge, ext: &Extension, Ghost(world): Ghost<World>) -> (result:
        Option<(VertexId, VertexId)>)
        requires
            world.cut == self.cut@,
            world.gone == self.gone@,
            world.leaving == self.leaving@,
        ensures
            result == world.new_step(e@, ext@),
    {
        let from: VertexId = if ext.outgoing {
            e.src
        } else {
            e.dst
        };
        let to: VertexId = if ext.outgoing {
            e.dst
        } else {
            e.src
        };
        if is_text(e.label.as_str(), ext.edge_label.as_str()) && self.let_pass(from, to) {
            Some((from, to))
        } else {
            None
        }
    }
}

fn spread_step(
    group: &mut Deltas,
    step: Option<(VertexId, VertexId)>,
    nodes: &Deltas,
    Ghost(steps): Ghost<Seq<Option<(VertexId, VertexId)>>>,
    Ghost(n): Ghost<int>,
) -> (result: bool)
    requires
        old(group).wf(),
        nodes.wf(),
        0 <= n < steps.len(),
        steps[n] == step,
        forall|v: VertexId| #[trigger]
            old(group).at(v) == spread(steps.take(n), changes_of(*nodes), v),
    ensures
        final(group).wf(),
        result ==> forall|v: VertexId| #[trigger]
            final(group).at(v) == spread(steps.take(n + 1), changes_of(*nodes), v) && fits(
                final(group).at(v),
            ),
        !result ==> step_overflows(steps, changes_of(*nodes)),
{
    let ghost before = *group;
    proof {
        assert(steps.take(n + 1).drop_last() =~= steps.take(n));
        assert(steps.take(n + 1).last() == step);
    }
    match step {
        None => {
            assert(forall|v: VertexId| fits(#[trigger] group.at(v))) by {
                assert forall|v: VertexId| fits(#[trigger] group.at(v)) by {
                    lemma_change_fits(*group, v);
                }
            }
            true
        },
        Some((from, to)) => {
            let delta: i64 = nodes.get(from);
            let added: bool = group.add_to(to, delta);
            proof {
                if added {
                    assert forall|v: VertexId| #[trigger]
                        group.at(v) == spread(steps.take(n + 1), changes_of(*nodes), v) && fits(
                            group.at(v),
                        ) by {
                        assert(before.at(v) == spread(steps.take(n), changes_of(*nodes), v));
                        lemma_change_fits(*group, v);
                    }
                } else {
                    assert(before.at(to) == spread(steps.take(n), changes_of(*nodes), to));
                    assert(!fits(spread(steps.take(n + 1), changes_of(*nodes), to)));
                }
            }
            added
        },
    }
}

proof fn lemma_change_fits(deltas: Deltas, v: VertexId)
    ensures
        fits(deltas.at(v)),
{
    if change_among(deltas.entries@, v) != 0 {
        let i = lemma_where(deltas.entries@, v);
    }
}

/// The changes that get to the neighbors; nothing where one of them does not fit.
fn spread_changes(
    flat_graph: &FlatGraph,
    barriers: &Barriers,
    label: &str,
    ext: &Extension,
    nodes: &Deltas,
) -> (result: Option<Deltas>)
    requires
        nodes.wf(),
    ensures
        ({
            let steps = world_of(*flat_graph, *barriers).steps(label@, ext@);
            match result {
                Some(group) => {
                    &&& group.wf()
                    &&& changes_of(group) == spread_along(steps, changes_of(*nodes))
                    &&& !step_overflows(steps, changes_of(*nodes))
                },
                None => step_overflows(steps, changes_of(*nodes)),
            }
        }),
{
    let ghost world = world_of(*flat_graph, *barriers);
    let ghost steps = world.steps(label@, ext@);
    let ghost base = flat_graph@.edges.len() as int;
    let mut group = Deltas::new();
    let mut i: usize = 0;
    while i < flat_graph.edges.len()
        invariant
            nodes.wf(),
            world == world_of(*flat_graph, *barriers),
            steps == world.steps(label@, ext@),
            base == flat_graph@.edges.len() == flat_graph.edges@.len(),
            i <= base,
            group.wf(),
            forall|v: VertexId| #[trigger]
                group.at(v) == spread(steps.take(i as int), changes_of(*nodes), v),
            forall|n: int, v: VertexId|
                #![trigger spread(steps.take(n), changes_of(*nodes), v)]
                0 <= n <= i ==> fits(spread(steps.take(n), changes_of(*nodes), v)),
        decreases flat_graph.edges.len() - i,
    {
        let step: Option<(VertexId, VertexId)> = barriers.step_along(
            &flat_graph.edges[i],
            label,
            ext,
            Ghost(world),
        );
        assert(flat_graph@.edges[i as int] == flat_graph.edges@[i as int]@);
        assert(steps[i as int] == step);
        if !spread_step(&mut group, step, nodes, Ghost(steps), Ghost(i as int)) {
            return None;
        }
        proof {
            assert forall|n: int, v: VertexId|
                #![trigger spread(steps.take(n), changes_of(*nodes), v)]
                0 <= n <= i + 1 implies fits(spread(steps.take(n), changes_of(*nodes), v)) by {
                if n == i + 1 {
                    assert(fits(group.at(v)));
                }
            }
        }
        i = i + 1;
    }
    let mut j: usize = 0;
    while j < flat_graph.pending.inserted_edges.len()
        invariant
            nodes.wf(),
            world == world_of(*flat_graph, *barriers),
            steps == world.steps(label@, ext@),
            base == flat_graph@.edges.len(),
            steps.len() == base + flat_graph.pending.inserted_edges@.len(),
            j <= flat_graph.pending.inserted_edges@.len(),
            group.wf(),
            forall|v: VertexId| #[trigger]
                group.at(v) == spread(steps.take(base + j), changes_of(*nodes), v),
            forall|n: int, v: VertexId|
                #![trigger spread(steps.take(n), changes_of(*nodes), v)]
                0 <= n <= base + j ==> fits(spread(steps.take(n), changes_of(*nodes), v)),
        decreases flat_graph.pending.inserted_edges.len() - j,
    {
        let step: Option<(VertexId, VertexId)> = barriers.step_along_new(
            &flat_graph.pending.inserted_edges[j],
            ext,
            Ghost(world),
        );
        assert(world.inserted[j as int] == flat_graph.pending.inserted_edges@[j as int]@);
        assert(steps[base + j] == step);
        if !spread_step(&mut group, step, nodes, Ghost(steps), Ghost(base + j)) {
            return None;
        }
        proof {
            assert forall|n: int, v: VertexId|
                #![trigger spread(steps.take(n), changes_of(*nodes), v)]
                0 <= n <= base + j + 1 implies fits(
                spread(steps.take(n), changes_of(*nodes), v),
            ) by {
                if n == base + j + 1 {
                    assert(fits(group.at(v)));
                }
            }
        }
        j = j + 1;
    }
    proof {
        assert(steps.take(base + j) =~= steps);
        assert(changes_of(group) =~= spread_along(steps, changes_of(*nodes)));
    }
    Some(group)
}

proof fn lemma_total_grows(all: Seq<Leaf>, leaf: Leaf)
    ensures
        forall|path: Seq<Seq<char>>, label: Seq<char>, v: VertexId| #[trigger]
            total(all.push(leaf), path, label, v) == total(all, path, label, v) + (if leaf.is_at(
                path,
                label,
            ) {
                (leaf.changes)(v)
            } else {
                0
            }),
        forall|path: Seq<Seq<char>>, label: Seq<char>| #[trigger]
            has_leaf(all.push(leaf), path, label) == (has_leaf(all, path, label) || leaf.is_at(
                path,
                label,
            )),
{
    let longer = all.push(leaf);
    assert(longer.drop_last() =~= all);
    assert forall|path: Seq<Seq<char>>, label: Seq<char>| #[trigger]
        has_leaf(longer, path, label) == (has_leaf(all, path, label) || leaf.is_at(
            path,
            label,
        )) by {
        if has_leaf(all, path, label) {
            let i = choose|i: int| 0 <= i < all.len() && (#[trigger] all[i]).is_at(path, label);
            assert(longer[i].is_at(path, label));
        }
        if has_leaf(longer, path, label) {
            let i = choose|i: int|
                0 <= i < longer.len() && (#[trigger] longer[i]).is_at(path, label);
            if i < all.len() {
                assert(all[i].is_at(path, label));
            }
        }
        assert(longer[all.len() as int] == leaf);
    }
}

/// Adds the changes of vertices that are still there; nothing is left to rely on where one does
/// not fit.
fn add_changes(into: &mut Deltas, nodes: &Deltas, barriers: &Barriers) -> (result: bool)
    requires
        old(into).wf(),
        nodes.wf(),
    ensures
        final(into).wf(),
        result ==> forall|v: VertexId| #[trigger]
            final(into).at(v) == old(into).at(v) + (if barriers.gone@.contains(v) {
                0
            } else {
                nodes.at(v)
            }),
        !result ==> exists|v: VertexId|
            !barriers.gone@.contains(v) && !fits(old(into).at(v) + #[trigger] nodes.at(v)),
{
    let ghost start = *into;
    let ghost entries = nodes.entries@;
    let mut i: usize = 0;
    while i < nodes.entries.len()
        invariant
            start == *old(into),
            nodes.wf(),
            entries == nodes.entries@,
            i <= entries.len(),
            into.wf(),
            forall|v: VertexId| #[trigger]
                into.at(v) == start.at(v) + (if barriers.gone@.contains(v) {
                    0
                } else {
                    change_among(entries.take(i as int), v)
                }),
        decreases nodes.entries.len() - i,
    {
        let (v, delta) = nodes.entries[i];
        let ghost before = *into;
        let ghost shorter = entries.take(i as int);
        proof {
            assert(entries.take(i + 1).drop_last() =~= shorter);
            if change_among(shorter, v) != 0 {
                let j = lemma_where(shorter, v);
                assert(entries[j].0 < entries[i as int].0);
            }
            lemma_listed(entries, i as int);
        }
        if !barriers.gone.contains(&v) {
            if !into.add_to(v, delta) {
                proof {
                    assert(nodes.at(v) == delta);
                    assert(before.at(v) == start.at(v));
                    assert(!fits(start.at(v) + nodes.at(v)));
                }
                return false;
            }
        }
        proof {
            assert forall|w: VertexId| #[trigger]
                into.at(w) == start.at(w) + (if barriers.gone@.contains(w) {
                    0
                } else {
                    change_among(entries.take(i + 1), w)
                }) by {
                assert(before.at(w) == start.at(w) + (if barriers.gone@.contains(w) {
                    0
                } else {
                    change_among(shorter, w)
                }));
            }
        }
        i = i + 1;
    }
    assert(entries.take(i as int) =~= entries);
    true
}

/// Adds the changes along a path to the totals.
fn add_leaf(
    sums: &mut Table<PathKey, Deltas>,
    template: &AltKey,
    label: &str,
    nodes: &Deltas,
    barriers: &Barriers,
    Ghost(world): Ghost<World>,
    Ghost(done): Ghost<Seq<Leaf>>,
) -> (result: bool)
    requires
        is_sum(*old(sums), done),
        template.wf(),
        nodes.wf(),
        world.gone == barriers.gone@,
    ensures
        ({
            let leaf = Leaf {
                template: label_views(template.raw@),
                label: label@,
                changes: of_those_here(world, changes_of(*nodes)),
            };
            if result {
                is_sum(*final(sums), done.push(leaf))
            } else {
                total_overflows(done.push(leaf))
            }
        }),
{
    let ghost start = *sums;
    let ghost leaf = Leaf {
        template: label_views(template.raw@),
        label: label@,
        changes: of_those_here(world, changes_of(*nodes)),
    };
    let ghost after = done.push(leaf);
    proof {
        lemma_total_grows(done, leaf);
        assert(after.take(after.len() as int) =~= after);
    }
    let key = PathKey { label: label.to_owned(), path: template.copy() };
    let ghost at = key@;
    match sums.position(&key) {
        Some(i) => {
            let mut changes: Deltas = sums.exchange(i, Deltas::new());
            let ghost before = changes;
            let added: bool = add_changes(&mut changes, nodes, barriers);
            if !added {
                proof {
                    let v = choose|v: VertexId|
                        !barriers.gone@.contains(v) && !fits(before.at(v) + #[trigger] nodes.at(v));
                    assert(total(done, at.1, at.0, v) == before.at(v));
                    assert(!fits(total(after.take(after.len() as int), at.1, at.0, v)));
                }
                return false;
            }
            sums.replace(i, changes);
            proof {
                assert(sums@ =~= start@.insert(at, changes));
                assert forall|path: Seq<Seq<char>>, l: Seq<char>, v: VertexId| #[trigger]
                    total(after, path, l, v) == (if sums@.contains_key((l, path)) {
                        sums@[(l, path)].at(v)
                    } else {
                        0
                    }) by {
                    assert(total(done, path, l, v) == (if start@.contains_key((l, path)) {
                        start@[(l, path)].at(v)
                    } else {
                        0
                    }));
                    assert(leaf.is_at(path, l) == ((l, path) == at));
                    assert(changes.at(v) == before.at(v) + (if barriers.gone@.contains(v) {
                        0
                    } else {
                        nodes.at(v)
                    }));
                }
                assert forall|path: Seq<Seq<char>>, l: Seq<char>| #[trigger]
                    sums@.contains_key((l, path)) <==> has_leaf(after, path, l) by {
                    assert(start@.contains_key((l, path)) <==> has_leaf(done, path, l));
                    assert(leaf.is_at(path, l) == ((l, path) == at));
                }
            }
        },
        None => {
            let mut changes = Deltas::new();
            let ghost before = changes;
            let added: bool = add_changes(&mut changes, nodes, barriers);
            if !added {
                proof {
                    let v = choose|v: VertexId|
                        !barriers.gone@.contains(v) && !fits(before.at(v) + #[trigger] nodes.at(v));
                    assert(before.at(v) == 0);
                    assert(total(done, at.1, at.0, v) == 0);
                    assert(!fits(total(after.take(after.len() as int), at.1, at.0, v)));
                }
                return false;
            }
            sums.append(key, changes);
            proof {
                assert forall|path: Seq<Seq<char>>, l: Seq<char>, v: VertexId| #[trigger]
                    total(after, path, l, v) == (if sums@.contains_key((l, path)) {
                        sums@[(l, path)].at(v)
                    } else {
                        0
                    }) by {
                    assert(total(done, path, l, v) == (if start@.contains_key((l, path)) {
                        start@[(l, path)].at(v)
                    } else {
                        0
                    }));
                    assert(leaf.is_at(path, l) == ((l, path) == at));
                    assert(changes.at(v) == before.at(v) + (if barriers.gone@.contains(v) {
                        0
                    } else {
                        nodes.at(v)
                    }));
                    assert(before.at(v) == 0);
                }
                assert forall|path: Seq<Seq<char>>, l: Seq<char>| #[trigger]
                    sums@.contains_key((l, path)) <==> has_leaf(after, path, l) by {
                    assert(start@.contains_key((l, path)) <==> has_leaf(done, path, l));
                    assert(leaf.is_at(path, l) == ((l, path) == at));
                }
            }
        },
    }
    proof {
        lemma_no_overflow(*sums, done, leaf);
    }
    true
}

proof fn lemma_no_overflow(sums: Table<PathKey, Deltas>, done: Seq<Leaf>, leaf: Leaf)
    requires
        !total_overflows(done),
        forall|path: Seq<Seq<char>>, label: Seq<char>, v: VertexId| #[trigger]
            total(done.push(leaf), path, label, v) == (if sums@.contains_key((label, path)) {
                sums@[(label, path)].at(v)
            } else {
                0
            }),
    ensures
        !total_overflows(done.push(leaf)),
{
    let after = done.push(leaf);
    assert forall|n: int, path: Seq<Seq<char>>, label: Seq<char>, v: VertexId|
        #![trigger total(after.take(n), path, label, v)]
        0 <= n <= after.len() implies fits(total(after.take(n), path, label, v)) by {
        if n <= done.len() {
            assert(after.take(n) =~= done.take(n));
        } else {
            assert(after.take(n) =~= after);
            if sums@.contains_key((label, path)) {
                lemma_change_fits(sums@[(label, path)], v);
            }
        }
    }
}

fn grow_key(ext: &Extension, template: &AltKey) -> (result: AltKey)
    ensures
        result.wf(),
        label_views(result.raw@) == grown_path(ext@, label_views(template.raw@)),
{
    let mut raw: Vec<String> = Vec::new();
    raw.push(ext.neighbor_label.as_str().to_owned());
    raw.push(ext.edge_label.as_str().to_owned());
    let mut rest: Vec<String> = copy_labels(&template.raw);
    raw.append(&mut rest);
    assert(label_views(raw@) =~= grown_path(ext@, label_views(template.raw@)));
    AltKey::new(raw)
}

/// What became of the paths so far, and whether it fits.
pub open spec fn is_progress(
    sums: Table<PathKey, Deltas>,
    done: Seq<Leaf>,
    all: Seq<Leaf>,
    overflow: bool,
    fine: bool,
) -> bool {
    if fine {
        is_sum(sums, done + all) && !overflow
    } else {
        overflow || total_overflows(done + all)
    }
}

/// Lets the paths of an entry grow, and adds what becomes of them to the totals.
fn expand(
    flat_graph: &FlatGraph,
    barriers: &Barriers,
    template: &AltKey,
    label: &str,
    nodes: &Deltas,
    res_len: usize,
    sums: &mut Table<PathKey, Deltas>,
    Ghost(done): Ghost<Seq<Leaf>>,
) -> (result: bool)
    requires
        is_sum(*old(sums), done),
        template.wf(),
        nodes.wf(),
    ensures
        ({
            let world = world_of(*flat_graph, *barriers);
            let all = leaves(
                world,
                label_views(template.raw@),
                label@,
                changes_of(*nodes),
                res_len as nat,
            );
            is_progress(
                *final(sums),
                done,
                all,
                growth_overflows(world, label@, changes_of(*nodes), res_len as nat),
                result,
            )
        }),
    decreases res_len,
{
    let ghost world = world_of(*flat_graph, *barriers);
    let ghost changes = changes_of(*nodes);
    let ghost path = label_views(template.raw@);
    let exts: Vec<Extension> = flat_graph.edge_extensions_for_label(label);
    assert(extension_views(exts@).len() == exts@.len());
    if res_len == 0 || exts.len() == 0 {
        let ghost leaf = Leaf {
            template: path,
            label: label@,
            changes: of_those_here(world, changes),
        };
        assert(done + seq![leaf] =~= done.push(leaf));
        assert(!growth_overflows(world, label@, changes, res_len as nat));
        return add_leaf(sums, template, label, nodes, barriers, Ghost(world), Ghost(done));
    }
    let ghost views = extensions_from(world.data.edge_types, label@);
    let mut i: usize = 0;
    assert(done + leaves_along(world, path, label@, changes, res_len as nat, 0) =~= done);
    while i < exts.len()
        invariant
            world == world_of(*flat_graph, *barriers),
            changes == changes_of(*nodes),
            path == label_views(template.raw@),
            views == extensions_from(world.data.edge_types, label@),
            views == extension_views(exts@),
            views.len() == exts@.len(),
            res_len > 0,
            template.wf(),
            nodes.wf(),
            i <= exts@.len(),
            is_sum(
                *sums,
                done + leaves_along(world, path, label@, changes, res_len as nat, i as nat),
            ),
            !growth_overflows_along(world, label@, changes, res_len as nat, i as nat),
        decreases exts.len() - i,
    {
        let ghost sofar = leaves_along(world, path, label@, changes, res_len as nat, i as nat);
        let ghost more = leaves_along(world, path, label@, changes, res_len as nat, (i + 1) as nat);
        let ghost whole = leaves_along(world, path, label@, changes, res_len as nat, views.len());
        let ghost ext = views[i as int];
        let ghost further = spread_along(world.steps(label@, ext), changes);
        assert(ext == exts@[i as int]@);
        proof {
            lemma_overflows_later(
                world,
                label@,
                changes,
                res_len as nat,
                (i + 1) as nat,
                views.len(),
            );
            lemma_leaves_later(
                world,
                path,
                label@,
                changes,
                res_len as nat,
                (i + 1) as nat,
                views.len(),
            );
        }
        match spread_changes(flat_graph, barriers, label, &exts[i], nodes) {
            None => {
                assert(growth_overflows(world, label@, changes, res_len as nat));
                return false;
            },
            Some(group) => {
                assert(changes_of(group) == further);
                if group.entries.len() > 0 {
                    proof {
                        lemma_listed(group.entries@, 0);
                        assert(further(group.entries@[0].0) == group.at(group.entries@[0].0));
                        assert(group.entries@[0].1 != 0);
                        assert(!no_change(further));
                    }
                    let ghost inner = leaves(
                        world,
                        grown_path(ext, path),
                        ext.neighbor_label,
                        further,
                        (res_len - 1) as nat,
                    );
                    let longer: AltKey = grow_key(&exts[i], template);
                    let fine: bool = expand(
                        flat_graph,
                        barriers,
                        &longer,
                        exts[i].neighbor_label.as_str(),
                        &group,
                        res_len - 1,
                        sums,
                        Ghost(done + sofar),
                    );
                    proof {
                        assert(more == sofar + inner);
                        assert((done + sofar) + inner =~= done + more);
                    }
                    if !fine {
                        proof {
                            if total_overflows(done + more) {
                                let rest = whole.skip(more.len() as int);
                                assert(whole =~= more + rest);
                                lemma_prefix_overflows(done + more, rest);
                                assert((done + more) + rest =~= done + whole);
                            }
                        }
                        return false;
                    }
                } else {
                    proof {
                        assert forall|v: VertexId| #[trigger] further(v) == 0 by {
                            assert(changes_of(group)(v) == group.at(v));
                            if group.at(v) != 0 {
                                let k = lemma_where(group.entries@, v);
                            }
                        }
                        assert(no_change(further));
                        assert(more =~= sofar);
                    }
                }
            },
        }
        i = i + 1;
    }
    true
}

proof fn lemma_overflows_later(
    world: World,
    label: Seq<char>,
    changes: Changes,
    res_len: nat,
    n: nat,
    m: nat,
)
    requires
        n <= m,
        res_len > 0,
    ensures
        growth_overflows_along(world, label, changes, res_len, n) ==> growth_overflows_along(
            world,
            label,
            changes,
            res_len,
            m,
        ),
    decreases m,
{
    if n < m {
        lemma_overflows_later(world, label, changes, res_len, n, (m - 1) as nat);
    }
}

proof fn lemma_leaves_later(
    world: World,
    template: Seq<Seq<char>>,
    label: Seq<char>,
    changes: Changes,
    res_len: nat,
    n: nat,
    m: nat,
)
    requires
        n <= m,
        res_len > 0,
    ensures
        ({
            let first = leaves_along(world, template, label, changes, res_len, n);
            let all = leaves_along(world, template, label, changes, res_len, m);
            first.len() <= all.len() && all.take(first.len() as int) == first
        }),
    decreases m,
{
    let first = leaves_along(world, template, label, changes, res_len, n);
    let all = leaves_along(world, template, label, changes, res_len, m);
    if n < m {
        lemma_leaves_later(world, template, label, changes, res_len, n, (m - 1) as nat);
        let before = leaves_along(world, template, label, changes, res_len, (m - 1) as nat);
        assert(all.take(first.len() as int) =~= before.take(first.len() as int));
    } else {
        assert(all.take(first.len() as int) =~= first);
    }
}

/// What becomes of the first `n` entries.
pub open spec fn leaves_of(world: World, entries: Seq<UpdateEntry>, n: int) -> Seq<Leaf>
    decreases n,
{
    if n <= 0 {
        Seq::empty()
    } else {
        let entry = entries[n - 1];
        leaves_of(world, entries, n - 1) + leaves(
            world,
            label_views(entry.template.raw@),
            entry.label@,
            changes_of(entry.nodes),
            entry.res_len as nat,
        )
    }
}

/// Whether a change does not fit while the paths of an entry grow.
pub open spec fn entry_overflows(world: World, entry: UpdateEntry) -> bool {
    growth_overflows(world, entry.label@, changes_of(entry.nodes), entry.res_len as nat)
}

/// Whether a change does not fit, while paths grow or when the changes are added.
pub open spec fn compaction_overflows(world: World, entries: Seq<UpdateEntry>) -> bool {
    ||| exists|i: int| 0 <= i < entries.len() && entry_overflows(world, #[trigger] entries[i])
    ||| total_overflows(leaves_of(world, entries, entries.len() as int))
}

proof fn lemma_leaves_of_later(world: World, entries: Seq<UpdateEntry>, n: int, m: int)
    requires
        0 <= n <= m,
    ensures
        ({
            let first = leaves_of(world, entries, n);
            let all = leaves_of(world, entries, m);
            first.len() <= all.len() && all.take(first.len() as int) == first
        }),
    decreases m,
{
    let first = leaves_of(world, entries, n);
    let all = leaves_of(world, entries, m);
    if n < m {
        lemma_leaves_of_later(world, entries, n, m - 1);
        let before = leaves_of(world, entries, m - 1);
        assert(all.take(first.len() as int) =~= before.take(first.len() as int));
    } else {
        assert(all.take(first.len() as int) =~= first);
    }
}

/// The totals of what becomes of the entries of a log.
pub fn sum_up(flat_graph: &FlatGraph, barriers: &Barriers, entries: &Vec<UpdateEntry>) -> (result:
    Option<Table<PathKey, Deltas>>)
    requires
        forall|i: int|
            0 <= i < entries@.len() ==> (#[trigger] entries@[i]).nodes.wf()
                && entries@[i].template.wf(),
    ensures
        ({
            let world = world_of(*flat_graph, *barriers);
            match result {
                Some(sums) => !compaction_overflows(world, entries@) && is_sum(
                    sums,
                    leaves_of(world, entries@, entries@.len() as int),
                ),
                None => compaction_overflows(world, entries@),
            }
        }),
{
    let ghost world = world_of(*flat_graph, *barriers);
    let ghost whole = leaves_of(world, entries@, entries@.len() as int);
    let mut sums: Table<PathKey, Deltas> = Table::new();
    let mut i: usize = 0;
    while i < entries.len()
        invariant
            world == world_of(*flat_graph, *barriers),
            whole == leaves_of(world, entries@, entries@.len() as int),
            forall|j: int|
                0 <= j < entries@.len() ==> (#[trigger] entries@[j]).nodes.wf()
                    && entries@[j].template.wf(),
            i <= entries@.len(),
            is_sum(sums, leaves_of(world, entries@, i as int)),
            forall|j: int| 0 <= j < i ==> !entry_overflows(world, #[trigger] entries@[j]),
        decreases entries.len() - i,
    {
        let entry: &UpdateEntry = &entries[i];
        let ghost before = leaves_of(world, entries@, i as int);
        let ghost more = leaves_of(world, entries@, i + 1);
        assert(entries@[i as int].nodes.wf());
        let fine: bool = expand(
            flat_graph,
            barriers,
            &entry.template,
            entry.label.as_str(),
            &entry.nodes,
            entry.res_len,
            &mut sums,
            Ghost(before),
        );
        if !fine {
            proof {
                if total_overflows(more) {
                    lemma_leaves_of_later(world, entries@, i + 1, entries@.len() as int);
                    let rest = whole.skip(more.len() as int);
                    assert(whole =~= more + rest);
                    lemma_prefix_overflows(more, rest);
                } else {
                    assert(entry_overflows(world, entries@[i as int]));
                }
            }
            return None;
        }
        i = i + 1;
    }
    Some(sums)
}

} // verus!
