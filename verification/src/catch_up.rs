//! Brings the degrees that are known up to date with a log of changes.
use crate::compaction::{
    changes_of, compaction_overflows, has_leaf, is_sum, leaves_of, of_those_here, sum_up, total,
    world_of, Barriers, Changes, Leaf, World,
};
use crate::deltas::Deltas;
use crate::flat::FlatGraph;
use crate::pattern::AltKey;
use crate::query::VertexId;
use crate::statistic::{lemma_rank, rank_in, shifted, LabelView, PathKey, Statistic};
use crate::table::{Key, Table};
use crate::text::label_views;
use crate::update_log::{entries_wf, lemma_logged_nowhere, logged, GCardUpdateLog, UpdateEntry};
use crate::updates::{after_change, is_key_for, labels_without, lists_pair};
use std::collections::HashSet;
use vstd::prelude::*;
use vstd::string::*;

verus! {

broadcast use vstd::std_specs::hash::group_hash_axioms;

/// By how much the degrees of the vertices with a label change along a path.
pub type Moves = spec_fn(Seq<char>, Seq<Seq<char>>, VertexId) -> int;

/// Degrees after changes of the vertices they belong to.
pub open spec fn changed_by(degrees: Seq<u64>, ids: Seq<VertexId>, changes: Changes) -> Seq<u64> {
    Seq::new(
        degrees.len(),
        |r: int|
            if r < ids.len() && rank_in(ids, ids[r]) == Some(r) && changes(ids[r]) != 0 {
                shifted(degrees[r], changes(ids[r]))
            } else {
                degrees[r]
            },
    )
}

/// A label after changes along paths.
pub open spec fn moved(label: LabelView, name: Seq<char>, moves: Moves) -> LabelView {
    LabelView {
        ids: label.ids,
        paths: Map::new(
            |path: Seq<Seq<char>>| label.paths.contains_key(path),
            |path: Seq<Seq<char>>|
                changed_by(label.paths[path], label.ids, |v: VertexId| moves(name, path, v)),
        ),
        stars: label.stars,
    }
}

/// The labels after changes along paths.
pub open spec fn labels_moved(labels: Map<Seq<char>, LabelView>, moves: Moves) -> Map<
    Seq<char>,
    LabelView,
> {
    Map::new(
        |name: Seq<char>| labels.contains_key(name),
        |name: Seq<char>| moved(labels[name], name, moves),
    )
}

/// The changes that are listed in the first `n` entries.
pub open spec fn first_moves(entries: Seq<(PathKey, Deltas)>, n: int) -> Moves {
    |name: Seq<char>, path: Seq<Seq<char>>, v: VertexId| moves_among(entries, n, name, path, v)
}

/// The change of a vertex in the first `n` entries.
pub open spec fn moves_among(
    entries: Seq<(PathKey, Deltas)>,
    n: int,
    name: Seq<char>,
    path: Seq<Seq<char>>,
    v: VertexId,
) -> int
    decreases n,
{
    if n <= 0 {
        0
    } else if entries[n - 1].0@ == (name, path) {
        entries[n - 1].1.at(v)
    } else {
        moves_among(entries, n - 1, name, path, v)
    }
}

/// The totals of what became of a log.
pub open spec fn total_moves(all: Seq<Leaf>) -> Moves {
    |name: Seq<char>, path: Seq<Seq<char>>, v: VertexId| total(all, path, name, v)
}

/// The labels without the first `n` of some vertices.
pub open spec fn labels_without_all(
    labels: Map<Seq<char>, LabelView>,
    ids: Seq<VertexId>,
    n: int,
) -> Map<Seq<char>, LabelView>
    decreases n,
{
    if n <= 0 {
        labels
    } else {
        labels_without(labels_without_all(labels, ids, n - 1), ids[n - 1])
    }
}

/// Whether a path and a label are listed.
pub open spec fn lists_key(keys: Seq<PathKey>, name: Seq<char>, path: Seq<Seq<char>>) -> bool {
    exists|i: int| 0 <= i < keys.len() && (#[trigger] keys[i])@ == (name, path)
}

/// Whether no path is listed twice for a label.
pub open spec fn keys_are_distinct(keys: Seq<PathKey>) -> bool {
    forall|i: int, j: int|
        #![trigger keys[i], keys[j]]
        0 <= i < j < keys.len() ==> keys[i]@ != keys[j]@
}

/// Why a log cannot be made up for.
#[derive(Debug, Clone, Copy, PartialEq, Eq, Structural)]
pub enum UpdateError {
    /// A change does not fit.
    Overflow,
}

fn id_set(ids: &Vec<u64>) -> (result: HashSet<u64>)
    ensures
        result@ == ids@.to_set(),
{
    let mut result: HashSet<u64> = HashSet::new();
    let mut i: usize = 0;
    assert(result@ =~= ids@.take(0).to_set());
    while i < ids.len()
        invariant
            i <= ids@.len(),
            result@ == ids@.take(i as int).to_set(),
        decreases ids.len() - i,
    {
        let ghost before = ids@.take(i as int);
        let ghost after = ids@.take(i + 1);
        result.insert(ids[i]);
        proof {
            assert(after =~= before.push(ids@[i as int]));
            assert forall|x: u64| after.to_set().contains(x) <==> #[trigger] before.to_set().insert(
                ids@[i as int],
            ).contains(x) by {
                if before.contains(x) {
                    let k = choose|k: int| 0 <= k < before.len() && before[k] == x;
                    assert(after[k] == x);
                }
                if after.contains(x) {
                    let k = choose|k: int| 0 <= k < after.len() && after[k] == x;
                    if k < before.len() {
                        assert(before[k] == x);
                    }
                }
                assert(after[i as int] == ids@[i as int]);
            }
            assert(after.to_set() =~= before.to_set().insert(ids@[i as int]));
        }
        i = i + 1;
    }
    assert(ids@.take(i as int) =~= ids@);
    result
}

fn note_key(keys: &mut Vec<PathKey>, label: &String, path: &AltKey)
    requires
        keys_are_distinct(old(keys)@),
    ensures
        keys_are_distinct(final(keys)@),
        forall|l: Seq<char>, p: Seq<Seq<char>>| #[trigger]
            lists_key(final(keys)@, l, p) == (lists_key(old(keys)@, l, p) || l == label@ && p
                == path@),
{
    let ghost before = keys@;
    let key = PathKey { label: label.as_str().to_owned(), path: path.copy() };
    let mut i: usize = 0;
    while i < keys.len()
        invariant
            keys@ == before,
            keys_are_distinct(before),
            key@ == (label@, path@),
            i <= keys@.len(),
            forall|j: int| 0 <= j < i ==> (#[trigger] keys@[j])@ != key@,
        decreases keys.len() - i,
    {
        if keys[i].same_key(&key) {
            assert(lists_key(before, label@, path@));
            return;
        }
        i = i + 1;
    }
    keys.push(key);
    proof {
        let after = keys@;
        assert forall|a: int, b: int|
            #![trigger after[a], after[b]]
            0 <= a < b < after.len() implies after[a]@ != after[b]@ by {
            if b < before.len() {
                assert(before[a]@ != before[b]@);
            } else {
                assert(before[a]@ != key@);
            }
        }
        assert forall|l: Seq<char>, p: Seq<Seq<char>>| #[trigger]
            lists_key(after, l, p) == (lists_key(before, l, p) || l == label@ && p == path@) by {
            if lists_key(before, l, p) {
                let k = choose|k: int| 0 <= k < before.len() && (#[trigger] before[k])@ == (l, p);
                assert(after[k]@ == (l, p));
            }
            if lists_key(after, l, p) {
                let k = choose|k: int| 0 <= k < after.len() && (#[trigger] after[k])@ == (l, p);
                if k < before.len() {
                    assert(before[k]@ == (l, p));
                }
            }
            assert(after[before.len() as int]@ == key@);
        }
    }
}

proof fn lemma_absent_moves(
    entries: Seq<(PathKey, Deltas)>,
    n: int,
    name: Seq<char>,
    path: Seq<Seq<char>>,
    v: VertexId,
)
    requires
        forall|i: int| 0 <= i < n ==> (#[trigger] entries[i]).0@ != (name, path),
    ensures
        moves_among(entries, n, name, path, v) == 0,
    decreases n,
{
    if n > 0 {
        assert(entries[n - 1].0@ != (name, path));
        lemma_absent_moves(entries, n - 1, name, path, v);
    }
}

proof fn lemma_moves_at(
    sums: Table<PathKey, Deltas>,
    n: int,
    i: int,
    v: VertexId,
)
    requires
        sums.wf(),
        0 <= i < n <= sums.entries@.len(),
    ensures
        moves_among(
            sums.entries@,
            n,
            sums.entries@[i].0@.0,
            sums.entries@[i].0@.1,
            v,
        ) == sums.entries@[i].1.at(v),
    decreases n,
{
    if i < n - 1 {
        assert(sums.entries@[i].0@ != sums.entries@[n - 1].0@);
        lemma_moves_at(sums, n - 1, i, v);
    }
}

proof fn lemma_unmoved(labels: Map<Seq<char>, LabelView>, moves: Moves)
    requires
        forall|name: Seq<char>, path: Seq<Seq<char>>, v: VertexId| #[trigger]
            moves(name, path, v) == 0,
    ensures
        labels_moved(labels, moves) == labels,
{
    let after = labels_moved(labels, moves);
    assert forall|name: Seq<char>| labels.contains_key(name) implies #[trigger] after[name]
        == labels[name] by {
        assert forall|path: Seq<Seq<char>>| labels[name].paths.contains_key(path) implies
            #[trigger] after[name].paths[path] == labels[name].paths[path] by {
            assert(after[name].paths[path] =~= labels[name].paths[path]);
        }
        assert(after[name].paths =~= labels[name].paths);
    }
    assert(after =~= labels);
}

proof fn lemma_one_move(
    labels: Map<Seq<char>, LabelView>,
    sums: Table<PathKey, Deltas>,
    i: int,
)
    requires
        sums.wf(),
        0 <= i < sums.entries@.len(),
    ensures
        ({
            let entries = sums.entries@;
            let before = labels_moved(labels, first_moves(entries, i));
            let after = labels_moved(labels, first_moves(entries, i + 1));
            let (name, path) = entries[i].0@;
            after == (if before.contains_key(name) {
                before.insert(name, after_change(before[name], path, entries[i].1.entries@))
            } else {
                before
            })
        }),
{
    let entries = sums.entries@;
    let before = labels_moved(labels, first_moves(entries, i));
    let after = labels_moved(labels, first_moves(entries, i + 1));
    let (name, path) = entries[i].0@;
    let changes = entries[i].1.entries@;
    assert forall|v: VertexId| #[trigger] moves_among(entries, i, name, path, v) == 0 by {
        assert forall|j: int| 0 <= j < i implies (#[trigger] entries[j]).0@ != (name, path) by {
            assert(sums.entries@[j].0@ != sums.entries@[i].0@);
        }
        lemma_absent_moves(entries, i, name, path, v);
    }
    assert forall|l: Seq<char>| labels.contains_key(l) implies #[trigger] after[l] == (if l
        == name {
        after_change(before[l], path, changes)
    } else {
        before[l]
    }) by {
        let goal = if l == name {
            after_change(before[l], path, changes)
        } else {
            before[l]
        };
        assert forall|p: Seq<Seq<char>>| labels[l].paths.contains_key(p) implies #[trigger]
            after[l].paths[p] == goal.paths[p] by {
            assert(after[l].paths[p] =~= goal.paths[p]);
        }
        assert(after[l].paths =~= goal.paths);
        assert(after[l] =~= goal);
    }
    if before.contains_key(name) {
        assert(after =~= before.insert(name, after_change(before[name], path, changes)));
    } else {
        assert(after =~= before);
    }
}

proof fn lemma_key_stays(
    labels: Map<Seq<char>, LabelView>,
    ids: Seq<VertexId>,
    n: int,
    v: VertexId,
    path: Seq<Seq<char>>,
    name: Seq<char>,
)
    requires
        0 <= n <= ids.len(),
        forall|i: int| 0 <= i < n ==> ids[i] != v,
    ensures
        is_key_for(labels_without_all(labels, ids, n), v, path, name) == is_key_for(
            labels,
            v,
            path,
            name,
        ),
    decreases n,
{
    if n > 0 {
        lemma_key_stays(labels, ids, n - 1, v, path, name);
        let before = labels_without_all(labels, ids, n - 1);
        if before.contains_key(name) {
            let known = before[name].ids;
            let u = ids[n - 1];
            lemma_rank(known, v);
            lemma_rank(known, u);
            match rank_in(known, u) {
                None => {},
                Some(r) => {
                    let left = known.remove(r);
                    lemma_rank(left, v);
                    if known.contains(v) {
                        let k = choose|k: int| 0 <= k < known.len() && known[k] == v;
                        if k < r {
                            assert(left[k] == v);
                        } else {
                            assert(left[k - 1] == v);
                        }
                    }
                    if left.contains(v) {
                        let k = choose|k: int| 0 <= k < left.len() && left[k] == v;
                        if k < r {
                            assert(known[k] == v);
                        } else {
                            assert(known[k + 1] == v);
                        }
                    }
                },
            }
        }
    }
}

/// Whether one of the first `n` vertices has a degree along a path.
pub open spec fn is_key_for_any(
    labels: Map<Seq<char>, LabelView>,
    ids: Seq<VertexId>,
    n: int,
    path: Seq<Seq<char>>,
    name: Seq<char>,
) -> bool {
    exists|i: int| 0 <= i < n && is_key_for(labels, #[trigger] ids[i], path, name)
}

/// What a log means for degrees, and which paths have other ones then. The vertices that went are
/// taken out.
pub open spec fn is_caught_up(
    before: Map<Seq<char>, LabelView>,
    all: Seq<Leaf>,
    deleted: Seq<VertexId>,
    after: Map<Seq<char>, LabelView>,
    dirty: Seq<PathKey>,
) -> bool {
    &&& after == labels_without_all(
        labels_moved(before, total_moves(all)),
        deleted,
        deleted.len() as int,
    )
    &&& keys_are_distinct(dirty)
    &&& forall|name: Seq<char>, path: Seq<Seq<char>>| #[trigger]
        lists_key(dirty, name, path) == (has_leaf(all, path, name) || is_key_for_any(
            before,
            deleted,
            deleted.len() as int,
            path,
            name,
        ))
}

/// The data that the changes of a log spread through.
pub open spec fn world_for(flat_graph: FlatGraph, log: GCardUpdateLog) -> World {
    World {
        data: flat_graph@,
        inserted: flat_graph.pending@.inserted_edges,
        cut: flat_graph.pending@.deleted_edge_ids.to_set(),
        gone: log.deleted_vertices@.to_set(),
        leaving: flat_graph.pending@.deleted_vertices.to_set(),
    }
}

impl GCardUpdateLog {
    /// Finds out what the log means for the degrees along paths, changes them, and empties the
    /// log. The paths are given back that have other degrees then, each with a label. Where a
    /// change does not fit, nothing happens.
    pub fn compact_and_apply_flat(&mut self, flat_graph: &FlatGraph, statistic: &mut Statistic) -> (result:
        Result<Vec<PathKey>, UpdateError>)
        requires
            old(self).wf(),
            old(statistic).wf(),
        ensures
            final(self).wf(),
            final(statistic).wf(),
            final(self).max_k == old(self).max_k,
            old(statistic).index_is_complete() ==> final(statistic).index_is_complete(),
            ({
                let world = world_for(*flat_graph, *old(self));
                let entries = old(self).entries@;
                if compaction_overflows(world, entries) {
                    &&& result == Err::<Vec<PathKey>, _>(UpdateError::Overflow)
                    &&& *final(self) == *old(self)
                    &&& *final(statistic) == *old(statistic)
                } else {
                    &&& result matches Ok(dirty) && is_caught_up(
                        old(statistic).labels(),
                        leaves_of(world, entries, entries.len() as int),
                        old(self).deleted_vertices@,
                        final(statistic).labels(),
                        dirty@,
                    )
                    &&& final(self).entries@.len() == 0
                    &&& final(self).deleted_vertices@.len() == 0
                    &&& final(self).has_room(i64::MAX as nat)
                }
            }),
    {
        let barriers = Barriers {
            cut: id_set(&flat_graph.pending.deleted_edge_ids),
            gone: id_set(&self.deleted_vertices),
            leaving: id_set(&flat_graph.pending.deleted_vertices),
        };
        let ghost world = world_for(*flat_graph, *self);
        assert(world == world_of(*flat_graph, barriers));
        let ghost all = leaves_of(world, self.entries@, self.entries@.len() as int);
        let sums: Table<PathKey, Deltas> = match sum_up(flat_graph, &barriers, &self.entries) {
            Some(sums) => sums,
            None => {
                return Err(UpdateError::Overflow);
            },
        };
        let ghost start = *statistic;
        let ghost labels = start.labels();
        let ghost entries = sums.entries@;
        let mut dirty: Vec<PathKey> = Vec::new();
        let mut i: usize = 0;
        proof {
            lemma_unmoved(labels, first_moves(entries, 0));
        }
        while i < sums.entries.len()
            invariant
                is_sum(sums, all),
                entries == sums.entries@,
                statistic.wf(),
                start.index_is_complete() ==> statistic.index_is_complete(),
                labels == start.labels(),
                i <= entries.len(),
                statistic.labels() == labels_moved(labels, first_moves(entries, i as int)),
                keys_are_distinct(dirty@),
                forall|name: Seq<char>, path: Seq<Seq<char>>| #[trigger]
                    lists_key(dirty@, name, path) == (exists|j: int|
                        0 <= j < i && (#[trigger] entries[j]).0@ == (name, path)),
            decreases entries.len() - i,
        {
            let ghost dirty_before = dirty@;
            let ghost middle = statistic.labels();
            assert(entries[i as int].1.wf());
            let count: usize = statistic.apply_deltas(
                sums.entries[i].0.label.as_str(),
                &sums.entries[i].0.path,
                &sums.entries[i].1,
            );
            note_key(&mut dirty, &sums.entries[i].0.label, &sums.entries[i].0.path);
            proof {
                lemma_one_move(labels, sums, i as int);
                assert forall|name: Seq<char>, path: Seq<Seq<char>>| #[trigger]
                    lists_key(dirty@, name, path) == (exists|j: int|
                        0 <= j < i + 1 && (#[trigger] entries[j]).0@ == (name, path)) by {
                    assert(lists_key(dirty_before, name, path) == (exists|j: int|
                        0 <= j < i && (#[trigger] entries[j]).0@ == (name, path)));
                    if lists_key(dirty_before, name, path) {
                        let j = choose|j: int|
                            0 <= j < i && (#[trigger] entries[j]).0@ == (name, path);
                        assert(entries[j].0@ == (name, path));
                    }
                    assert(entries[i as int].0@ == entries[i as int].0@);
                }
            }
            i = i + 1;
        }
        let ghost moved_labels = labels_moved(labels, total_moves(all));
        proof {
            assert forall|name: Seq<char>, path: Seq<Seq<char>>, v: VertexId| #[trigger]
                first_moves(entries, i as int)(name, path, v) == total_moves(all)(name, path, v) by {
                assert(total(all, path, name, v) == (if sums@.contains_key((name, path)) {
                    sums@[(name, path)].at(v)
                } else {
                    0
                }));
                if sums@.contains_key((name, path)) {
                    let k = sums.lemma_key((name, path));
                    lemma_moves_at(sums, i as int, k, v);
                } else {
                    assert forall|j: int| 0 <= j < i implies (#[trigger] entries[j]).0@ != (
                        name,
                        path,
                    ) by {
                        sums.lemma_entry(j);
                    }
                    lemma_absent_moves(entries, i as int, name, path, v);
                }
            }
            assert(first_moves(entries, i as int) =~= total_moves(all));
            assert forall|name: Seq<char>, path: Seq<Seq<char>>| #[trigger]
                lists_key(dirty@, name, path) == has_leaf(all, path, name) by {
                if has_leaf(all, path, name) {
                    assert(sums@.contains_key((name, path)));
                    let k = sums.lemma_key((name, path));
                    assert(entries[k].0@ == (name, path));
                }
                if lists_key(dirty@, name, path) {
                    let k = choose|k: int|
                        0 <= k < i && (#[trigger] entries[k]).0@ == (name, path);
                    sums.lemma_entry(k);
                }
            }
        }
        let ghost deleted = self.deleted_vertices@;
        let mut j: usize = 0;
        while j < self.deleted_vertices.len()
            invariant
                *self == *old(self),
                self.wf(),
                deleted == self.deleted_vertices@,
                statistic.wf(),
                start.index_is_complete() ==> statistic.index_is_complete(),
                labels == start.labels(),
                moved_labels == labels_moved(labels, total_moves(all)),
                j <= deleted.len(),
                statistic.labels() == labels_without_all(moved_labels, deleted, j as int),
                keys_are_distinct(dirty@),
                forall|name: Seq<char>, path: Seq<Seq<char>>| #[trigger]
                    lists_key(dirty@, name, path) == (has_leaf(all, path, name) || is_key_for_any(
                        labels,
                        deleted,
                        j as int,
                        path,
                        name,
                    )),
            decreases deleted.len() - j,
        {
            let v: VertexId = self.deleted_vertices[j];
            let ghost dirty_before = dirty@;
            let ghost here = statistic.labels();
            let affected: Vec<(AltKey, String)> = statistic.keys_for_vertex(v);
            let mut k: usize = 0;
            while k < affected.len()
                invariant
                    k <= affected@.len(),
                    keys_are_distinct(dirty@),
                    forall|name: Seq<char>, path: Seq<Seq<char>>| #[trigger]
                        lists_key(dirty@, name, path) == (lists_key(dirty_before, name, path)
                            || lists_pair(affected@.take(k as int), path, name)),
                decreases affected.len() - k,
            {
                let ghost dirty_then = dirty@;
                note_key(&mut dirty, &affected[k].1, &affected[k].0);
                proof {
                    let shorter = affected@.take(k as int);
                    let longer = affected@.take(k + 1);
                    assert forall|name: Seq<char>, path: Seq<Seq<char>>| #[trigger]
                        lists_key(dirty@, name, path) == (lists_key(dirty_before, name, path)
                            || lists_pair(longer, path, name)) by {
                        assert(lists_key(dirty_then, name, path) == (lists_key(
                            dirty_before,
                            name,
                            path,
                        ) || lists_pair(shorter, path, name)));
                        if lists_pair(shorter, path, name) {
                            let x = choose|x: int|
                                0 <= x < shorter.len() && (#[trigger] shorter[x]).0@ == path
                                    && shorter[x].1@ == name;
                            assert(longer[x] == shorter[x]);
                        }
                        if lists_pair(longer, path, name) {
                            let x = choose|x: int|
                                0 <= x < longer.len() && (#[trigger] longer[x]).0@ == path
                                    && longer[x].1@ == name;
                            if x < k {
                                assert(shorter[x] == longer[x]);
                            }
                        }
                        assert(longer[k as int] == affected@[k as int]);
                    }
                }
                k = k + 1;
            }
            assert(affected@.take(k as int) =~= affected@);
            statistic.delete_vertex(v);
            proof {
                assert forall|name: Seq<char>, path: Seq<Seq<char>>| #[trigger]
                    lists_key(dirty@, name, path) == (has_leaf(all, path, name) || is_key_for_any(
                        labels,
                        deleted,
                        j + 1,
                        path,
                        name,
                    )) by {
                    assert(lists_key(dirty_before, name, path) == (has_leaf(all, path, name)
                        || is_key_for_any(labels, deleted, j as int, path, name)));
                    assert(lists_pair(affected@, path, name) == is_key_for(here, v, path, name));
                    assert forall|x: int| 0 <= x < j implies deleted[x] != v by {
                        assert(deleted[x] != deleted[j as int]);
                    }
                    lemma_key_stays(moved_labels, deleted, j as int, v, path, name);
                    assert(is_key_for(moved_labels, v, path, name) == is_key_for(
                        labels,
                        v,
                        path,
                        name,
                    ));
                    if is_key_for_any(labels, deleted, j + 1, path, name) {
                        let x = choose|x: int|
                            0 <= x < j + 1 && is_key_for(labels, #[trigger] deleted[x], path, name);
                        if x < j {
                            assert(is_key_for_any(labels, deleted, j as int, path, name));
                        }
                    }
                    if is_key_for_any(labels, deleted, j as int, path, name) {
                        let x = choose|x: int|
                            0 <= x < j && is_key_for(labels, #[trigger] deleted[x], path, name);
                        assert(is_key_for(labels, deleted[x], path, name));
                    }
                    assert(deleted[j as int] == v);
                }
            }
            j = j + 1;
        }
        self.entries = Vec::new();
        self.deleted_vertices = Vec::new();
        Ok(dirty)
    }
}

/// An empty log changes nothing.
pub proof fn empty_logs_change_nothing(
    labels: Map<Seq<char>, LabelView>,
    world: World,
    entries: Seq<UpdateEntry>,
    after: Map<Seq<char>, LabelView>,
    dirty: Seq<PathKey>,
)
    requires
        entries.len() == 0,
        is_caught_up(labels, leaves_of(world, entries, 0), Seq::empty(), after, dirty),
    ensures
        after == labels,
        dirty.len() == 0,
{
    let all = leaves_of(world, entries, 0);
    lemma_unmoved(labels, total_moves(all));
    if dirty.len() > 0 {
        assert(lists_key(dirty, dirty[0]@.0, dirty[0]@.1)) by {
            assert(dirty[0]@ == (dirty[0]@.0, dirty[0]@.1));
        }
        assert(!has_leaf(all, dirty[0]@.1, dirty[0]@.0));
    }
}

/// Where paths do not grow, a degree changes by what is logged for it.
pub proof fn short_paths_change_as_logged(
    world: World,
    entries: Seq<UpdateEntry>,
    n: int,
    path: Seq<Seq<char>>,
    label: Seq<char>,
    v: VertexId,
)
    requires
        entries_wf(entries),
        forall|i: int| 0 <= i < entries.len() ==> (#[trigger] entries[i]).res_len == 0,
        !world.gone.contains(v),
        0 <= n <= entries.len(),
    ensures
        total(leaves_of(world, entries, n), path, label, v) == logged(
            entries.take(n),
            path,
            label,
            0,
            v,
        ),
    decreases n,
{
    if n > 0 {
        short_paths_change_as_logged(world, entries, n - 1, path, label, v);
        let entry = entries[n - 1];
        let before = leaves_of(world, entries, n - 1);
        let leaf = Leaf {
            template: label_views(entry.template.raw@),
            label: entry.label@,
            changes: of_those_here(world, changes_of(entry.nodes)),
        };
        assert(entry.res_len == 0 && entry.template.wf());
        assert(leaves_of(world, entries, n) =~= before.push(leaf));
        assert(before.push(leaf).drop_last() =~= before);
        assert(entries.take(n).drop_last() =~= entries.take(n - 1));
        assert(leaf.is_at(path, label) == entry.is_for(path, label, 0));
        if entry.is_for(path, label, 0) {
            let shorter = entries.take(n - 1);
            assert forall|i: int| 0 <= i < shorter.len() implies !(#[trigger] shorter[i]).is_for(
                path,
                label,
                0,
            ) by {
                assert(!entries[n - 1].is_for(
                    entries[i].template@,
                    entries[i].label@,
                    entries[i].res_len as nat,
                ));
            }
            lemma_logged_nowhere(shorter, path, label, 0, v);
        }
    }
}

/// Where no vertex went, the degree of a vertex after a log was made up for is its degree before
/// plus the change along the path, and nothing less than zero; a vertex keeps its place.
pub proof fn degrees_move_by_their_changes(
    before: Map<Seq<char>, LabelView>,
    all: Seq<Leaf>,
    after: Map<Seq<char>, LabelView>,
    dirty: Seq<PathKey>,
    name: Seq<char>,
    path: Seq<Seq<char>>,
    r: int,
)
    requires
        is_caught_up(before, all, Seq::empty(), after, dirty),
        before.contains_key(name),
        before[name].paths.contains_key(path),
        before[name].ids.no_duplicates(),
        0 <= r < before[name].ids.len(),
        before[name].ids.len() == before[name].paths[path].len(),
        before[name].paths[path][r] <= i64::MAX,
        i64::MIN <= total(all, path, name, before[name].ids[r]) <= i64::MAX,
    ensures
        after.contains_key(name),
        after[name].ids == before[name].ids,
        after[name].paths.contains_key(path),
        after[name].paths[path].len() == before[name].paths[path].len(),
        ({
            let sum = before[name].paths[path][r] + total(all, path, name, before[name].ids[r]);
            after[name].paths[path][r] == (if sum < 0 {
                0
            } else {
                sum
            })
        }),
{
    let label = before[name];
    let v = label.ids[r];
    lemma_rank(label.ids, v);
    assert(rank_in(label.ids, v) == Some(r));
    let moves = total_moves(all);
    assert(after == labels_moved(before, moves));
    assert(moves(name, path, v) == total(all, path, name, v));
}

/// Paths without changes, and labels and paths that are not known, are left as they are; stars and
/// the vertices of labels are as well.
pub proof fn only_changed_degrees_move(
    before: Map<Seq<char>, LabelView>,
    all: Seq<Leaf>,
    after: Map<Seq<char>, LabelView>,
    dirty: Seq<PathKey>,
    name: Seq<char>,
    path: Seq<Seq<char>>,
    r: int,
)
    requires
        is_caught_up(before, all, Seq::empty(), after, dirty),
    ensures
        after.contains_key(name) <==> before.contains_key(name),
        before.contains_key(name) ==> after[name].ids == before[name].ids && after[name].stars
            == before[name].stars,
        before.contains_key(name) ==> (after[name].paths.contains_key(path)
            <==> before[name].paths.contains_key(path)),
        before.contains_key(name) && before[name].paths.contains_key(path) && 0 <= r
            < before[name].paths[path].len() && (r >= before[name].ids.len() || total(
            all,
            path,
            name,
            before[name].ids[r],
        ) == 0) ==> after[name].paths[path][r] == before[name].paths[path][r],
{
    let moves = total_moves(all);
    assert(after == labels_moved(before, moves));
    if before.contains_key(name) && r < before[name].ids.len() {
        assert(moves(name, path, before[name].ids[r]) == total(
            all,
            path,
            name,
            before[name].ids[r],
        ));
    }
}

} // verus!
