//! Changes of the degrees that are known, and what follows from them.
use crate::deltas::Deltas;
use crate::order::sorting_orders_the_values;
use crate::pattern::{AltKey, StarStatKey, StarView};
use crate::query::VertexId;
use crate::statistic::{
    changed, degrees_in, degrees_of, has_paths_for_arms, has_proper_stars, ids_after, lemma_rank,
    lemma_same_stars, listed_changes, paired, rank_in, refusal, shift, shifted, with_path,
    BlockStatistic, LabelStatistic, LabelView, Statistic, VertexDegree,
};
use crate::table::{Key, Table};
use vstd::prelude::*;
use vstd::string::*;

verus! {

/// Where one label is replaced by another one with the same stars, nothing else changes.
pub proof fn lemma_label_replaced(before: Statistic, after: Statistic, i: int, known: LabelStatistic)
    requires
        before.wf(),
        0 <= i < before.label_path_statistic.entries@.len(),
        known.wf(),
        has_proper_stars(known.star_statistic),
        known@.stars.dom() == before.label_path_statistic.entries@[i].1@.stars.dom(),
        after.label_path_statistic.wf(),
        after.label_path_statistic@ == before.label_path_statistic@.insert(
            before.label_path_statistic.entries@[i].0@,
            known,
        ),
        after.label_path_statistic.entries@.len() == before.label_path_statistic.entries@.len(),
        forall|j: int|
            #![trigger after.label_path_statistic.entries@[j]]
            0 <= j < after.label_path_statistic.entries@.len()
                ==> after.label_path_statistic.entries@[j].0
                == before.label_path_statistic.entries@[j].0
                && after.label_path_statistic.entries@[j].1 == (if j == i {
                known
            } else {
                before.label_path_statistic.entries@[j].1
            }),
        after.arm_to_star_keys == before.arm_to_star_keys,
    ensures
        after.wf(),
        after.labels() == before.labels().insert(
            before.label_path_statistic.entries@[i].0@,
            known@,
        ),
        before.labels()[before.label_path_statistic.entries@[i].0@]
            == before.label_path_statistic.entries@[i].1@,
        before.labels().contains_key(before.label_path_statistic.entries@[i].0@),
        before.index_is_complete() ==> after.index_is_complete(),
{
    let key = before.label_path_statistic.entries@[i].0@;
    before.label_path_statistic.lemma_entry(i);
    assert(after.labels() =~= before.labels().insert(key, known@));
    if before.index_is_complete() {
        assert forall|label: Seq<char>, star: StarView|
            #![trigger after.labels()[label].stars.contains_key(star)]
            #![trigger before.labels()[label].stars.contains_key(star)]
            (after.labels().contains_key(label) && after.labels()[label].stars.contains_key(star))
                == (before.labels().contains_key(label)
                && before.labels()[label].stars.contains_key(star)) by {
            if label == key {
                assert(known@.stars.dom().contains(star)
                    == before.label_path_statistic.entries@[i].1@.stars.dom().contains(star));
            }
        }
        lemma_same_stars(before, after);
    }
}

/// A label after changes along one path.
pub open spec fn after_change(
    label: LabelView,
    key: Seq<Seq<char>>,
    entries: Seq<(VertexId, i64)>,
) -> LabelView {
    if label.paths.contains_key(key) {
        with_path(label, label.ids, key, changed(label.paths[key], label.ids, entries))
    } else {
        label
    }
}

/// How many changes along a path are made.
pub open spec fn change_count(
    label: LabelView,
    key: Seq<Seq<char>>,
    entries: Seq<(VertexId, i64)>,
) -> nat {
    if label.paths.contains_key(key) {
        listed_changes(label.ids, entries)
    } else {
        0
    }
}

/// Changes along paths: what they are of, and the changes.
pub type PathDeltas = (AltKey, Deltas);

/// A label after changes along paths, one path after the other.
pub open spec fn after_changes(label: LabelView, changes: Seq<PathDeltas>) -> LabelView
    decreases changes.len(),
{
    if changes.len() == 0 {
        label
    } else {
        after_change(
            after_changes(label, changes.drop_last()),
            changes.last().0@,
            changes.last().1.entries@,
        )
    }
}

/// How many changes along paths are made.
pub open spec fn changes_count(label: LabelView, changes: Seq<PathDeltas>) -> nat
    decreases changes.len(),
{
    if changes.len() == 0 {
        0
    } else {
        changes_count(label, changes.drop_last()) + change_count(
            label,
            changes.last().0@,
            changes.last().1.entries@,
        )
    }
}

proof fn lemma_changes_keep(label: LabelView, changes: Seq<PathDeltas>)
    ensures
        after_changes(label, changes).ids == label.ids,
        after_changes(label, changes).stars == label.stars,
        after_changes(label, changes).paths.dom() == label.paths.dom(),
    decreases changes.len(),
{
    if changes.len() > 0 {
        lemma_changes_keep(label, changes.drop_last());
        let before = after_changes(label, changes.drop_last());
        assert(after_changes(label, changes).paths.dom() =~= before.paths.dom());
    }
}

/// Whether all changes are listed as they should be.
pub open spec fn deltas_wf(changes: Seq<PathDeltas>) -> bool {
    forall|i: int| 0 <= i < changes.len() ==> (#[trigger] changes[i]).1.wf()
}

/// A number, or the greatest that fits where that is less.
pub open spec fn counted(n: nat) -> usize {
    if n <= usize::MAX {
        n as usize
    } else {
        usize::MAX
    }
}

fn count_up(a: usize, b: usize) -> (result: usize)
    ensures
        result == counted((a + b) as nat),
{
    if b <= usize::MAX - a {
        a + b
    } else {
        usize::MAX
    }
}

impl LabelStatistic {
    /// Changes the degrees along a path, and says how many changes were made.
    fn change_path(&mut self, key: &AltKey, deltas: &Deltas) -> (result: usize)
        requires
            old(self).wf(),
            deltas.wf(),
        ensures
            final(self).wf(),
            final(self)@ == after_change(old(self)@, key@, deltas.entries@),
            final(self).star_statistic == old(self).star_statistic,
            result == change_count(old(self)@, key@, deltas.entries@),
    {
        let ghost before = *self;
        match self.path_statistic.position(key) {
            Some(i) => {
                let count: usize = self.change_block(i, deltas);
                assert(self@ =~= after_change(before@, key@, deltas.entries@));
                count
            },
            None => 0,
        }
    }

    /// Changes the degrees along paths, and says how many changes were made.
    fn change_paths(&mut self, changes: &Vec<PathDeltas>) -> (result: usize)
        requires
            old(self).wf(),
            deltas_wf(changes@),
        ensures
            final(self).wf(),
            final(self)@ == after_changes(old(self)@, changes@),
            final(self).star_statistic == old(self).star_statistic,
            result == counted(changes_count(old(self)@, changes@)),
    {
        let ghost before = *self;
        let mut count: usize = 0;
        let mut i: usize = 0;
        while i < changes.len()
            invariant
                deltas_wf(changes@),
                self.wf(),
                i <= changes@.len(),
                self@ == after_changes(before@, changes@.take(i as int)),
                self.star_statistic == before.star_statistic,
                count == counted(changes_count(before@, changes@.take(i as int))),
            decreases changes.len() - i,
        {
            assert(changes@.take(i + 1).drop_last() =~= changes@.take(i as int));
            proof {
                lemma_changes_keep(before@, changes@.take(i as int));
                assert(self@.paths.contains_key(changes@[i as int].0@) == self@.paths.dom().contains(
                    changes@[i as int].0@,
                ));
                assert(before@.paths.contains_key(changes@[i as int].0@)
                    == before@.paths.dom().contains(changes@[i as int].0@));
            }
            assert(changes@[i as int].1.wf());
            let more: usize = self.change_path(&changes[i].0, &changes[i].1);
            count = count_up(count, more);
            i = i + 1;
        }
        assert(changes@.take(i as int) =~= changes@);
        count
    }
}

/// The labels after changes.
pub open spec fn labels_after(
    labels: Map<Seq<char>, LabelView>,
    grouped: Map<Seq<char>, Vec<PathDeltas>>,
) -> Map<Seq<char>, LabelView> {
    Map::new(
        |label: Seq<char>| labels.contains_key(label),
        |label: Seq<char>|
            if grouped.contains_key(label) {
                after_changes(labels[label], grouped[label]@)
            } else {
                labels[label]
            },
    )
}

/// How many changes are made to the first `n` labels.
pub open spec fn total_changes(
    labels: Seq<(String, LabelStatistic)>,
    grouped: Map<Seq<char>, Vec<PathDeltas>>,
    n: int,
) -> nat
    decreases n,
{
    if n <= 0 {
        0
    } else {
        total_changes(labels, grouped, n - 1) + (if grouped.contains_key(labels[n - 1].0@) {
            changes_count(labels[n - 1].1@, grouped[labels[n - 1].0@]@)
        } else {
            0
        })
    }
}

/// Whether all changes of all labels are listed as they should be.
pub open spec fn grouped_wf(grouped: Table<String, Vec<PathDeltas>>) -> bool {
    &&& grouped.wf()
    &&& forall|i: int|
        0 <= i < grouped.entries@.len() ==> deltas_wf((#[trigger] grouped.entries@[i]).1@)
}

impl Statistic {
    /// Changes the degree of one vertex along a path. A degree does not get negative.
    pub fn apply_delta(&mut self, label: &str, altkey: &AltKey, vertex_id: VertexId, delta: i64)
        requires
            old(self).wf(),
        ensures
            final(self).wf(),
            old(self).index_is_complete() ==> final(self).index_is_complete(),
            ({
                let labels = old(self).labels();
                if labels.contains_key(label@) && labels[label@].paths.contains_key(altkey@)
                    && rank_in(labels[label@].ids, vertex_id) is Some {
                    let before = labels[label@];
                    let rank = rank_in(before.ids, vertex_id)->0;
                    let degrees = before.paths[altkey@];
                    final(self).labels() == labels.insert(
                        label@,
                        with_path(
                            before,
                            before.ids,
                            altkey@,
                            if rank < degrees.len() {
                                degrees.update(rank, shifted(degrees[rank], delta as int))
                            } else {
                                degrees
                            },
                        ),
                    )
                } else {
                    final(self).labels() == labels
                }
            }),
    {
        let ghost start = *self;
        let name: String = label.to_owned();
        let i: usize = match self.label_path_statistic.position(&name) {
            Some(i) => i,
            None => {
                return;
            },
        };
        let rank: usize = match self.label_path_statistic.entries[i].1.rank_of(vertex_id) {
            Some(rank) => rank,
            None => {
                return;
            },
        };
        let place: usize = match self.label_path_statistic.entries[i].1.path_statistic.position(
            altkey,
        ) {
            Some(place) => place,
            None => {
                return;
            },
        };
        let mut known: LabelStatistic = self.label_path_statistic.exchange(
            i,
            LabelStatistic::new(),
        );
        let ghost before = known;
        let empty = BlockStatistic { degrees: Vec::new() };
        let mut block: BlockStatistic = known.path_statistic.exchange(place, empty);
        let ghost degrees = block@;
        let current: u64 = match block.recover_upper_bound_at_rank(rank) {
            Some(degree) => degree,
            None => 0,
        };
        block.put(rank, shift(current, delta));
        known.path_statistic.replace(place, block);
        assert(known@ =~= with_path(before@, before@.ids, altkey@, block@));
        self.label_path_statistic.replace(i, known);
        proof {
            assert(self.label_path_statistic@ =~= start.label_path_statistic@.insert(
                label@,
                known,
            ));
            lemma_label_replaced(start, *self, i as int, known);
        }
    }

    /// Changes the degrees of vertices along a path, and says how many changes were made.
    pub fn apply_deltas(&mut self, label: &str, altkey: &AltKey, deltas: &Deltas) -> (result: usize)
        requires
            old(self).wf(),
            deltas.wf(),
        ensures
            final(self).wf(),
            old(self).index_is_complete() ==> final(self).index_is_complete(),
            ({
                let labels = old(self).labels();
                if labels.contains_key(label@) {
                    &&& final(self).labels() == labels.insert(
                        label@,
                        after_change(labels[label@], altkey@, deltas.entries@),
                    )
                    &&& result == change_count(labels[label@], altkey@, deltas.entries@)
                } else {
                    final(self).labels() == labels && result == 0
                }
            }),
    {
        let ghost start = *self;
        let name: String = label.to_owned();
        let i: usize = match self.label_path_statistic.position(&name) {
            Some(i) => i,
            None => {
                return 0;
            },
        };
        let mut known: LabelStatistic = self.label_path_statistic.exchange(
            i,
            LabelStatistic::new(),
        );
        let count: usize = known.change_path(altkey, deltas);
        self.label_path_statistic.replace(i, known);
        proof {
            assert(self.label_path_statistic@ =~= start.label_path_statistic@.insert(
                label@,
                known,
            ));
            lemma_label_replaced(start, *self, i as int, known);
        }
        count
    }

    /// Changes the degrees of vertices along paths, and says how many changes were made.
    pub fn apply_grouped_deltas(&mut self, grouped: &Table<String, Vec<PathDeltas>>) -> (result:
        usize)
        requires
            old(self).wf(),
            grouped_wf(*grouped),
        ensures
            final(self).wf(),
            old(self).index_is_complete() ==> final(self).index_is_complete(),
            final(self).labels() == labels_after(old(self).labels(), grouped@),
            final(self).label_path_statistic.keys() == old(self).label_path_statistic.keys(),
            result == counted(
                total_changes(
                    old(self).label_path_statistic.entries@,
                    grouped@,
                    old(self).label_path_statistic.entries@.len() as int,
                ),
            ),
    {
        let ghost start = *self;
        let ghost entries = start.label_path_statistic.entries@;
        let mut count: usize = 0;
        let mut i: usize = 0;
        while i < self.label_path_statistic.entries.len()
            invariant
                entries == start.label_path_statistic.entries@,
                start.label_path_statistic.wf(),
                grouped_wf(*grouped),
                self.wf(),
                start.index_is_complete() ==> self.index_is_complete(),
                self.label_path_statistic.keys() == start.label_path_statistic.keys(),
                self.label_path_statistic.entries@.len() == entries.len(),
                i <= entries.len(),
                self.labels().dom() == start.labels().dom(),
                forall|j: int|
                    #![trigger entries[j]]
                    0 <= j < i ==> self.labels()[entries[j].0@] == labels_after(
                        start.labels(),
                        grouped@,
                    )[entries[j].0@],
                forall|j: int|
                    #![trigger entries[j]]
                    i <= j < entries.len() ==> self.labels()[entries[j].0@]
                        == start.labels()[entries[j].0@],
                count == counted(total_changes(entries, grouped@, i as int)),
            decreases entries.len() - i,
        {
            let ghost before = *self;
            proof {
                start.label_path_statistic.lemma_entry(i as int);
                self.label_path_statistic.lemma_entry(i as int);
                assert(self.label_path_statistic.keys()[i as int]
                    == start.label_path_statistic.keys()[i as int]);
                assert(self.label_path_statistic.entries@[i as int].0@ == entries[i as int].0@);
                assert(start.labels()[entries[i as int].0@] == entries[i as int].1@);
                assert(self.label_path_statistic.entries@[i as int].1@ == entries[i as int].1@);
            }
            match grouped.position(&self.label_path_statistic.entries[i].0) {
                None => {},
                Some(k) => {
                    let mut known: LabelStatistic = self.label_path_statistic.exchange(
                        i,
                        LabelStatistic::new(),
                    );
                    let ghost known_before = known@;
                    assert(deltas_wf(grouped.entries@[k as int].1@));
                    let more: usize = known.change_paths(&grouped.entries[k].1);
                    count = count_up(count, more);
                    proof {
                        lemma_changes_keep(known_before, grouped.entries@[k as int].1@);
                    }
                    self.label_path_statistic.replace(i, known);
                    proof {
                        assert(self.label_path_statistic@ =~= before.label_path_statistic@.insert(
                            entries[i as int].0@,
                            known,
                        ));
                        lemma_label_replaced(before, *self, i as int, known);
                        assert(self.labels().dom() =~= start.labels().dom());
                    }
                },
            }
            proof {
                assert forall|j: int|
                    #![trigger entries[j]]
                    0 <= j < entries.len() && j != i implies entries[j].0@
                    != entries[i as int].0@ by {
                    if j < i {
                        assert(start.label_path_statistic.entries@[j].0@
                            != start.label_path_statistic.entries@[i as int].0@);
                    } else {
                        assert(start.label_path_statistic.entries@[i as int].0@
                            != start.label_path_statistic.entries@[j].0@);
                    }
                }
            }
            i = i + 1;
        }
        proof {
            let after = labels_after(start.labels(), grouped@);
            assert forall|label: Seq<char>| self.labels().contains_key(label) implies #[trigger]
                self.labels()[label] == after[label] by {
                assert(start.labels().dom().contains(label));
                let j = start.label_path_statistic.lemma_key(label);
                assert(entries[j].0@ == label);
            }
            assert(self.labels() =~= after);
        }
        count
    }
}

/// Degrees without the one at a rank.
pub open spec fn without_rank(degrees: Seq<u64>, rank: int) -> Seq<u64> {
    if rank < degrees.len() {
        degrees.remove(rank)
    } else {
        degrees
    }
}

/// Blocks of degrees without the ones at a rank.
pub open spec fn all_without_rank<K>(blocks: Map<K, Seq<u64>>, rank: int) -> Map<K, Seq<u64>> {
    blocks.map_values(|degrees: Seq<u64>| without_rank(degrees, rank))
}

/// A label without a vertex.
pub open spec fn without_vertex(label: LabelView, v: VertexId) -> LabelView {
    match rank_in(label.ids, v) {
        None => label,
        Some(rank) => LabelView {
            ids: label.ids.remove(rank),
            paths: all_without_rank(label.paths, rank),
            stars: all_without_rank(label.stars, rank),
        },
    }
}

fn remove_rank<K: Key>(blocks: &mut Table<K, BlockStatistic>, rank: usize)
    requires
        old(blocks).wf(),
    ensures
        final(blocks).wf(),
        final(blocks).keys() == old(blocks).keys(),
        degrees_in(final(blocks)@) == all_without_rank(degrees_in(old(blocks)@), rank as int),
{
    let ghost start = *blocks;
    let ghost entries = start.entries@;
    let mut i: usize = 0;
    while i < blocks.entries.len()
        invariant
            start.wf(),
            entries == start.entries@,
            blocks.wf(),
            blocks.keys() == start.keys(),
            blocks.entries@.len() == entries.len(),
            i <= entries.len(),
            blocks@.dom() == start@.dom(),
            forall|j: int|
                #![trigger entries[j]]
                0 <= j < entries.len() ==> blocks@[entries[j].0@]@ == (if j < i {
                    without_rank(entries[j].1@, rank as int)
                } else {
                    entries[j].1@
                }),
        decreases entries.len() - i,
    {
        let ghost before = *blocks;
        let empty = BlockStatistic { degrees: Vec::new() };
        proof {
            blocks.lemma_entry(i as int);
            assert(blocks.keys()[i as int] == start.keys()[i as int]);
            assert(blocks.entries@[i as int].0@ == entries[i as int].0@);
        }
        let mut block: BlockStatistic = blocks.exchange(i, empty);
        block.remove_at_rank(rank);
        blocks.replace(i, block);
        proof {
            assert(blocks@ =~= before@.insert(entries[i as int].0@, block));
            assert(blocks@.dom() =~= start@.dom());
            assert forall|j: int|
                #![trigger entries[j]]
                0 <= j < entries.len() && j != i implies entries[j].0@ != entries[i as int].0@ by {
                if j < i {
                    assert(start.entries@[j].0@ != start.entries@[i as int].0@);
                } else {
                    assert(start.entries@[i as int].0@ != start.entries@[j].0@);
                }
            }
        }
        i = i + 1;
    }
    proof {
        let after = all_without_rank(degrees_in(start@), rank as int);
        assert forall|key: K::V| degrees_in(blocks@).contains_key(key) implies #[trigger] degrees_in(
            blocks@,
        )[key] == after[key] by {
            assert(start@.dom().contains(key));
            let j = start.lemma_key(key);
            assert(entries[j].0@ == key);
        }
        assert(degrees_in(blocks@) =~= after);
    }
}

/// Stars with the same keys have paths for arms as well.
pub proof fn lemma_proper_stars_kept(
    before: Table<StarStatKey, BlockStatistic>,
    after: Table<StarStatKey, BlockStatistic>,
)
    requires
        has_proper_stars(before),
        after.keys() == before.keys(),
    ensures
        has_proper_stars(after),
{
    assert(after.keys().len() == after.entries@.len());
    assert(before.keys().len() == before.entries@.len());
    assert forall|i: int| 0 <= i < after.entries@.len() implies has_paths_for_arms(
        (#[trigger] after.entries@[i]).0@,
    ) by {
        assert(after.keys()[i] == after.entries@[i].0@);
        assert(before.keys()[i] == before.entries@[i].0@);
    }
}

/// The labels without a vertex.
pub open spec fn labels_without(labels: Map<Seq<char>, LabelView>, v: VertexId) -> Map<
    Seq<char>,
    LabelView,
> {
    labels.map_values(|label: LabelView| without_vertex(label, v))
}

impl Statistic {
    /// Takes a vertex out of all labels, and its degrees with it.
    pub fn delete_vertex(&mut self, vertex_id: VertexId)
        requires
            old(self).wf(),
        ensures
            final(self).wf(),
            old(self).index_is_complete() ==> final(self).index_is_complete(),
            final(self).labels() == labels_without(old(self).labels(), vertex_id),
            final(self).label_path_statistic.keys() == old(self).label_path_statistic.keys(),
    {
        let ghost start = *self;
        let ghost entries = start.label_path_statistic.entries@;
        let mut i: usize = 0;
        while i < self.label_path_statistic.entries.len()
            invariant
                entries == start.label_path_statistic.entries@,
                start.label_path_statistic.wf(),
                self.wf(),
                start.index_is_complete() ==> self.index_is_complete(),
                self.label_path_statistic.keys() == start.label_path_statistic.keys(),
                self.label_path_statistic.entries@.len() == entries.len(),
                i <= entries.len(),
                self.labels().dom() == start.labels().dom(),
                forall|j: int|
                    #![trigger entries[j]]
                    0 <= j < entries.len() ==> self.labels()[entries[j].0@] == (if j < i {
                        without_vertex(start.labels()[entries[j].0@], vertex_id)
                    } else {
                        start.labels()[entries[j].0@]
                    }),
            decreases entries.len() - i,
        {
            let ghost before = *self;
            proof {
                start.label_path_statistic.lemma_entry(i as int);
                self.label_path_statistic.lemma_entry(i as int);
                assert(self.label_path_statistic.keys()[i as int]
                    == start.label_path_statistic.keys()[i as int]);
                assert(self.label_path_statistic.entries@[i as int].0@ == entries[i as int].0@);
                assert(start.labels()[entries[i as int].0@] == entries[i as int].1@);
                assert(self.label_path_statistic.entries@[i as int].1@ == entries[i as int].1@);
            }
            match self.label_path_statistic.entries[i].1.rank_of(vertex_id) {
                None => {},
                Some(rank) => {
                    let mut known: LabelStatistic = self.label_path_statistic.exchange(
                        i,
                        LabelStatistic::new(),
                    );
                    let ghost known_before = known;
                    proof {
                        lemma_rank(known@.ids, vertex_id);
                    }
                    known.vertex_ids.remove(rank);
                    remove_rank(&mut known.path_statistic, rank);
                    remove_rank(&mut known.star_statistic, rank);
                    known.rebuild_rank_index();
                    proof {
                        lemma_proper_stars_kept(known_before.star_statistic, known.star_statistic);
                        assert(known@ =~= without_vertex(known_before@, vertex_id));
                        assert(known@.stars.dom() =~= known_before@.stars.dom());
                    }
                    self.label_path_statistic.replace(i, known);
                    proof {
                        assert(self.label_path_statistic@ =~= before.label_path_statistic@.insert(
                            entries[i as int].0@,
                            known,
                        ));
                        lemma_label_replaced(before, *self, i as int, known);
                        assert(self.labels().dom() =~= start.labels().dom());
                    }
                },
            }
            proof {
                assert forall|j: int|
                    #![trigger entries[j]]
                    0 <= j < entries.len() && j != i implies entries[j].0@
                    != entries[i as int].0@ by {
                    if j < i {
                        assert(start.label_path_statistic.entries@[j].0@
                            != start.label_path_statistic.entries@[i as int].0@);
                    } else {
                        assert(start.label_path_statistic.entries@[i as int].0@
                            != start.label_path_statistic.entries@[j].0@);
                    }
                }
            }
            i = i + 1;
        }
        proof {
            let after = labels_without(start.labels(), vertex_id);
            assert forall|label: Seq<char>| self.labels().contains_key(label) implies #[trigger]
                self.labels()[label] == after[label] by {
                assert(start.labels().dom().contains(label));
                let j = start.label_path_statistic.lemma_key(label);
                assert(entries[j].0@ == label);
            }
            assert(self.labels() =~= after);
        }
    }
}

/// Whether all blocks of a label have a degree for every vertex.
pub open spec fn is_aligned(label: LabelView) -> bool {
    &&& forall|key: Seq<Seq<char>>| #[trigger]
        label.paths.contains_key(key) ==> label.paths[key].len() == label.ids.len()
    &&& forall|star: StarView| #[trigger]
        label.stars.contains_key(star) ==> label.stars[star].len() == label.ids.len()
}

/// A label whose blocks have a degree for every vertex keeps that when a vertex is taken out.
pub proof fn deleting_keeps_alignment(label: LabelView, v: VertexId)
    requires
        is_aligned(label),
    ensures
        is_aligned(without_vertex(label, v)),
{
    lemma_rank(label.ids, v);
}

/// A label whose blocks have a degree for every vertex keeps that when degrees change.
pub proof fn changing_keeps_alignment(label: LabelView, changes: Seq<PathDeltas>)
    requires
        is_aligned(label),
    ensures
        is_aligned(after_changes(label, changes)),
    decreases changes.len(),
{
    if changes.len() > 0 {
        changing_keeps_alignment(label, changes.drop_last());
    }
}

/// A label whose blocks have a degree for every vertex keeps that when degrees along a path are
/// taken, unless it had blocks and no vertices.
pub proof fn inserting_keeps_alignment(
    label: LabelView,
    ids: Seq<VertexId>,
    degrees: Seq<u64>,
    key: Seq<Seq<char>>,
)
    requires
        is_aligned(label),
        refusal(label.ids, ids, degrees) is None,
        label.ids.len() > 0 || ids.len() == 0 || label.paths.dom().is_empty()
            && label.stars.dom().is_empty(),
    ensures
        is_aligned(
            with_path(
                label,
                ids_after(label.ids, ids, degrees),
                key,
                degrees_of(paired(ids, degrees)),
            ),
        ),
{
    sorting_orders_the_values(
        Seq::new(ids.len(), |i: int| VertexDegree { id: ids[i], degree: degrees[i] }),
    );
    let after = with_path(
        label,
        ids_after(label.ids, ids, degrees),
        key,
        degrees_of(paired(ids, degrees)),
    );
    assert forall|k: Seq<Seq<char>>| #[trigger]
        after.paths.contains_key(k) implies after.paths[k].len() == after.ids.len() by {
        if k != key {
            assert(label.paths.contains_key(k));
            assert(label.paths.dom().contains(k));
        }
    }
    assert forall|star: StarView| #[trigger]
        after.stars.contains_key(star) implies after.stars[star].len() == after.ids.len() by {
        assert(label.stars.contains_key(star));
        assert(label.stars.dom().contains(star));
    }
}

/// A vertex that was taken out of a label is not listed there, unless it was listed twice.
pub proof fn deleted_vertices_are_gone(label: LabelView, v: VertexId)
    requires
        label.ids.no_duplicates(),
    ensures
        rank_in(without_vertex(label, v).ids, v) is None,
{
    lemma_rank(label.ids, v);
    match rank_in(label.ids, v) {
        None => {},
        Some(rank) => {
            let ids = label.ids.remove(rank);
            lemma_rank(ids, v);
            if ids.contains(v) {
                let i = choose|i: int| 0 <= i < ids.len() && ids[i] == v;
                if i < rank {
                    assert(label.ids[i] == v);
                } else {
                    assert(label.ids[i + 1] == v);
                }
            }
        },
    }
}

/// A label that a vertex belongs to, with a path that has degrees there.
pub open spec fn is_key_for(
    labels: Map<Seq<char>, LabelView>,
    v: VertexId,
    key: Seq<Seq<char>>,
    label: Seq<char>,
) -> bool {
    labels.contains_key(label) && rank_in(labels[label].ids, v) is Some
        && labels[label].paths.contains_key(key)
}

/// Whether a path and a label are listed.
pub open spec fn lists_pair(
    pairs: Seq<(AltKey, String)>,
    key: Seq<Seq<char>>,
    label: Seq<char>,
) -> bool {
    exists|i: int|
        0 <= i < pairs.len() && (#[trigger] pairs[i]).0@ == key && pairs[i].1@ == label
}

impl Statistic {
    /// The paths along which a vertex may have a degree, each with the label of the vertex.
    pub fn keys_for_vertex(&self, vertex_id: VertexId) -> (result: Vec<(AltKey, String)>)
        requires
            self.wf(),
        ensures
            forall|key: Seq<Seq<char>>, label: Seq<char>| #[trigger]
                lists_pair(result@, key, label) <==> is_key_for(
                    self.labels(),
                    vertex_id,
                    key,
                    label,
                ),
            forall|i: int, j: int|
                #![trigger result@[i], result@[j]]
                0 <= i < j < result@.len() ==> result@[i].0@ != result@[j].0@ || result@[i].1@
                    != result@[j].1@,
    {
        let ghost entries = self.label_path_statistic.entries@;
        let mut keys: Vec<(AltKey, String)> = Vec::new();
        let mut i: usize = 0;
        while i < self.label_path_statistic.entries.len()
            invariant
                self.wf(),
                entries == self.label_path_statistic.entries@,
                i <= entries.len(),
                forall|k: int|
                    #![trigger keys@[k]]
                    0 <= k < keys@.len() ==> is_key_for(
                        self.labels(),
                        vertex_id,
                        keys@[k].0@,
                        keys@[k].1@,
                    ) && exists|x: int| 0 <= x < i && keys@[k].1@ == (#[trigger] entries[x]).0@,
                forall|x: int, y: int|
                    #![trigger entries[x].1.path_statistic.entries@[y]]
                    0 <= x < i && rank_in(entries[x].1@.ids, vertex_id) is Some && 0 <= y
                        < entries[x].1.path_statistic.entries@.len() ==> lists_pair(
                        keys@,
                        entries[x].1.path_statistic.entries@[y].0@,
                        entries[x].0@,
                    ),
                forall|a: int, b: int|
                    #![trigger keys@[a], keys@[b]]
                    0 <= a < b < keys@.len() ==> keys@[a].0@ != keys@[b].0@ || keys@[a].1@
                        != keys@[b].1@,
            decreases entries.len() - i,
        {
            let entry: &(String, LabelStatistic) = &self.label_path_statistic.entries[i];
            proof {
                self.label_path_statistic.lemma_entry(i as int);
            }
            if entry.1.rank_of(vertex_id).is_some() {
                let ghost paths = entry.1.path_statistic.entries@;
                let ghost old_keys = keys@;
                let mut j: usize = 0;
                while j < entry.1.path_statistic.entries.len()
                    invariant
                        self.wf(),
                        entries == self.label_path_statistic.entries@,
                        i < entries.len(),
                        *entry == entries[i as int],
                        paths == entry.1.path_statistic.entries@,
                        entry.1.path_statistic.wf(),
                        self.labels().contains_key(entry.0@),
                        self.labels()[entry.0@] == entry.1@,
                        rank_in(entry.1@.ids, vertex_id) is Some,
                        j <= paths.len(),
                        keys@.len() == old_keys.len() + j,
                        forall|k: int|
                            #![trigger keys@[k]]
                            0 <= k < old_keys.len() ==> keys@[k] == old_keys[k],
                        forall|k: int|
                            #![trigger keys@[k]]
                            old_keys.len() <= k < keys@.len() ==> keys@[k].1@ == entry.0@
                                && keys@[k].0@ == paths[k - old_keys.len()].0@,
                    decreases paths.len() - j,
                {
                    keys.push(
                        (
                            entry.1.path_statistic.entries[j].0.copy(),
                            entry.0.as_str().to_owned(),
                        ),
                    );
                    j = j + 1;
                }
                proof {
                    let n = old_keys.len() as int;
                    assert forall|k: int|
                        #![trigger keys@[k]]
                        0 <= k < keys@.len() implies is_key_for(
                        self.labels(),
                        vertex_id,
                        keys@[k].0@,
                        keys@[k].1@,
                    ) && exists|x: int| 0 <= x < i + 1 && keys@[k].1@ == (
                    #[trigger] entries[x]).0@ by {
                        if k >= n {
                            entry.1.path_statistic.lemma_entry(k - n);
                            assert(entries[i as int].0@ == keys@[k].1@);
                        } else {
                            let x = choose|x: int|
                                0 <= x < i && old_keys[k].1@ == (#[trigger] entries[x]).0@;
                            assert(entries[x].0@ == keys@[k].1@);
                        }
                    }
                    assert forall|x: int, y: int|
                        #![trigger entries[x].1.path_statistic.entries@[y]]
                        0 <= x < i + 1 && rank_in(entries[x].1@.ids, vertex_id) is Some && 0 <= y
                            < entries[x].1.path_statistic.entries@.len() implies lists_pair(
                        keys@,
                        entries[x].1.path_statistic.entries@[y].0@,
                        entries[x].0@,
                    ) by {
                        if x < i {
                            let k = choose|k: int|
                                0 <= k < old_keys.len() && (#[trigger] old_keys[k]).0@
                                    == entries[x].1.path_statistic.entries@[y].0@ && old_keys[k].1@
                                    == entries[x].0@;
                            assert(keys@[k] == old_keys[k]);
                        } else {
                            assert(keys@[n + y].0@ == paths[y].0@);
                        }
                    }
                    assert forall|a: int, b: int|
                        #![trigger keys@[a], keys@[b]]
                        0 <= a < b < keys@.len() implies keys@[a].0@ != keys@[b].0@ || keys@[a].1@
                        != keys@[b].1@ by {
                        if b < n {
                            assert(old_keys[a].0@ != old_keys[b].0@ || old_keys[a].1@
                                != old_keys[b].1@);
                        } else if a >= n {
                            assert(entry.1.path_statistic.entries@[a - n].0@
                                != entry.1.path_statistic.entries@[b - n].0@);
                        } else {
                            let x = choose|x: int|
                                0 <= x < i && old_keys[a].1@ == (#[trigger] entries[x]).0@;
                            assert(self.label_path_statistic.entries@[x].0@
                                != self.label_path_statistic.entries@[i as int].0@);
                        }
                    }
                }
            } else {
                proof {
                    assert forall|k: int|
                        #![trigger keys@[k]]
                        0 <= k < keys@.len() implies is_key_for(
                        self.labels(),
                        vertex_id,
                        keys@[k].0@,
                        keys@[k].1@,
                    ) && exists|x: int| 0 <= x < i + 1 && keys@[k].1@ == (
                    #[trigger] entries[x]).0@ by {
                        let x = choose|x: int|
                            0 <= x < i && keys@[k].1@ == (#[trigger] entries[x]).0@;
                        assert(entries[x].0@ == keys@[k].1@);
                    }
                }
            }
            i = i + 1;
        }
        proof {
            assert forall|key: Seq<Seq<char>>, label: Seq<char>| #[trigger]
                lists_pair(keys@, key, label) <==> is_key_for(
                    self.labels(),
                    vertex_id,
                    key,
                    label,
                ) by {
                if is_key_for(self.labels(), vertex_id, key, label) {
                    let x = self.label_path_statistic.lemma_key(label);
                    let y = entries[x].1.path_statistic.lemma_key(key);
                    assert(entries[x].1.path_statistic.entries@[y].0@ == key);
                }
            }
        }
        keys
    }
}

/// When a vertex is taken out of a label, every other vertex stays, with the degrees that it has
/// along paths and in stars. Only a vertex that was listed is missing then.
pub proof fn other_vertices_keep_their_degrees(
    label: LabelView,
    v: VertexId,
    w: VertexId,
    before: int,
    after: int,
)
    requires
        is_aligned(label),
        label.ids.no_duplicates(),
        v != w,
    ensures
        ({
            let rest = without_vertex(label, v);
            &&& rest.ids.contains(w) <==> label.ids.contains(w)
            &&& rest.ids.len() == label.ids.len() - (if label.ids.contains(v) {
                1int
            } else {
                0
            })
            &&& rest.paths.dom() == label.paths.dom()
            &&& rest.stars.dom() == label.stars.dom()
            &&& 0 <= before < label.ids.len() && label.ids[before] == w && 0 <= after
                < rest.ids.len() && rest.ids[after] == w ==> {
                &&& forall|key: Seq<Seq<char>>| #[trigger]
                    label.paths.contains_key(key) ==> rest.paths[key][after]
                        == label.paths[key][before]
                &&& forall|star: StarView| #[trigger]
                    label.stars.contains_key(star) ==> rest.stars[star][after]
                        == label.stars[star][before]
            }
        }),
{
    lemma_rank(label.ids, v);
    let rest = without_vertex(label, v);
    match rank_in(label.ids, v) {
        None => {},
        Some(rank) => {
            let ids = label.ids.remove(rank);
            if label.ids.contains(w) {
                let i = choose|i: int| 0 <= i < label.ids.len() && label.ids[i] == w;
                if i < rank {
                    assert(ids[i] == w);
                } else {
                    assert(ids[i - 1] == w);
                }
            }
            if ids.contains(w) {
                let i = choose|i: int| 0 <= i < ids.len() && ids[i] == w;
                if i < rank {
                    assert(label.ids[i] == w);
                } else {
                    assert(label.ids[i + 1] == w);
                }
            }
            assert(rest.paths.dom() =~= label.paths.dom());
            assert(rest.stars.dom() =~= label.stars.dom());
            if 0 <= before < label.ids.len() && label.ids[before] == w && 0 <= after
                < rest.ids.len() && rest.ids[after] == w {
                let there = if after < rank {
                    after
                } else {
                    after + 1
                };
                assert(label.ids[there] == w);
                assert(there == before);
            }
        },
    }
}

} // verus!
