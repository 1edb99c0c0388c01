//! Degrees of the vertices along paths and in stars, and how they change.
use crate::counting::{
    lemma_no_places, lemma_places_alike, lemma_places_finite, lemma_places_step, places,
};
use crate::deltas::{ascends, change_among, lemma_where, Deltas};
use crate::order::{sort, sorted, sorting_orders_the_values, Ordered};
use crate::pattern::{first_direction, AltKey, PathView, StarStatKey, StarView};
use crate::query::VertexId;
use crate::table::{Key, Table};
use crate::text::is_text;
use std::collections::HashMap;
use vstd::prelude::*;
use vstd::string::*;

verus! {

broadcast use vstd::std_specs::hash::group_hash_axioms;

/// Degrees, one for each vertex of a label.
#[derive(Debug)]
pub struct BlockStatistic {
    pub degrees: Vec<u64>,
}

impl View for BlockStatistic {
    type V = Seq<u64>;

    open spec fn view(&self) -> Seq<u64> {
        self.degrees@
    }
}

impl BlockStatistic {
    /// The degree at a rank.
    pub fn recover_upper_bound_at_rank(&self, rank: usize) -> (result: Option<u64>)
        ensures
            result == (if rank < self@.len() {
                Some(self@[rank as int])
            } else {
                None
            }),
    {
        if rank < self.degrees.len() {
            Some(self.degrees[rank])
        } else {
            None
        }
    }

    /// Puts another degree at a rank; where there is none, nothing happens.
    pub fn put(&mut self, rank: usize, degree: u64)
        ensures
            final(self)@ == (if rank < old(self)@.len() {
                old(self)@.update(rank as int, degree)
            } else {
                old(self)@
            }),
    {
        if rank < self.degrees.len() {
            self.degrees[rank] = degree;
        }
    }

    /// Takes out the degree at a rank; where there is none, nothing happens.
    pub fn remove_at_rank(&mut self, rank: usize)
        ensures
            final(self)@ == (if rank < old(self)@.len() {
                old(self)@.remove(rank as int)
            } else {
                old(self)@
            }),
    {
        if rank < self.degrees.len() {
            self.degrees.remove(rank);
        }
    }
}

/// Where a vertex is listed: at the last place where it is.
pub open spec fn rank_in(ids: Seq<VertexId>, v: VertexId) -> Option<int>
    decreases ids.len(),
{
    if ids.len() == 0 {
        None
    } else if ids.last() == v {
        Some(ids.len() - 1)
    } else {
        rank_in(ids.drop_last(), v)
    }
}

/// A rank is a place where the vertex is listed.
pub proof fn lemma_rank(ids: Seq<VertexId>, v: VertexId)
    ensures
        rank_in(ids, v) matches Some(r) ==> 0 <= r < ids.len() && ids[r] == v,
        ids.contains(v) <==> rank_in(ids, v) is Some,
    decreases ids.len(),
{
    if ids.len() > 0 {
        if ids.last() == v {
            assert(ids[ids.len() - 1] == v);
        } else {
            lemma_rank(ids.drop_last(), v);
            if ids.contains(v) {
                let i = choose|i: int| 0 <= i < ids.len() && ids[i] == v;
                assert(ids.drop_last()[i] == v);
            }
            if ids.drop_last().contains(v) {
                let i = choose|i: int| 0 <= i < ids.len() - 1 && ids.drop_last()[i] == v;
                assert(ids[i] == v);
            }
        }
    }
}

/// What is known of the vertices with a label.
#[derive(Debug)]
pub struct LabelStatistic {
    pub vertex_ids: Vec<VertexId>,
    pub rank_index: HashMap<VertexId, usize>,
    pub path_statistic: Table<AltKey, BlockStatistic>,
    pub star_statistic: Table<StarStatKey, BlockStatistic>,
}

/// The vertices with a label, and their degrees along paths and in stars.
#[verifier::ext_equal]
pub struct LabelView {
    pub ids: Seq<VertexId>,
    pub paths: Map<Seq<Seq<char>>, Seq<u64>>,
    pub stars: Map<StarView, Seq<u64>>,
}

/// The degrees in blocks.
pub open spec fn degrees_in<K>(blocks: Map<K, BlockStatistic>) -> Map<K, Seq<u64>> {
    blocks.map_values(|block: BlockStatistic| block@)
}

impl View for LabelStatistic {
    type V = LabelView;

    open spec fn view(&self) -> LabelView {
        LabelView {
            ids: self.vertex_ids@,
            paths: degrees_in(self.path_statistic@),
            stars: degrees_in(self.star_statistic@),
        }
    }
}

/// Whether an index leads to the ranks of vertices.
pub open spec fn is_rank_index(index: Map<VertexId, usize>, ids: Seq<VertexId>) -> bool {
    forall|v: VertexId|
        #![trigger index.contains_key(v)]
        #![trigger rank_in(ids, v)]
        match rank_in(ids, v) {
            Some(r) => index.contains_key(v) && index[v] == r,
            None => !index.contains_key(v),
        }
}

impl LabelStatistic {
    /// No key occurs twice.
    pub open spec fn tables_wf(self) -> bool {
        self.path_statistic.wf() && self.star_statistic.wf()
    }

    /// No key occurs twice, and the index leads to the ranks.
    pub open spec fn wf(self) -> bool {
        self.tables_wf() && is_rank_index(self.rank_index@, self.vertex_ids@)
    }

    /// Nothing is known.
    pub fn new() -> (result: LabelStatistic)
        ensures
            result.wf(),
            result.path_statistic.entries@.len() == 0,
            result.star_statistic.entries@.len() == 0,
            result@ == (LabelView { ids: Seq::empty(), paths: Map::empty(), stars: Map::empty() }),
    {
        let result = LabelStatistic {
            vertex_ids: Vec::new(),
            rank_index: HashMap::new(),
            path_statistic: Table::new(),
            star_statistic: Table::new(),
        };
        assert(result@.ids =~= Seq::empty());
        assert(result@.paths =~= Map::empty());
        assert(result@.stars =~= Map::empty());
        result
    }

    /// Makes the index anew.
    pub fn rebuild_rank_index(&mut self)
        requires
            old(self).tables_wf(),
        ensures
            final(self).wf(),
            final(self)@ == old(self)@,
            final(self).path_statistic == old(self).path_statistic,
            final(self).star_statistic == old(self).star_statistic,
    {
        let mut index: HashMap<VertexId, usize> = HashMap::new();
        let mut i: usize = 0;
        while i < self.vertex_ids.len()
            invariant
                *self == *old(self),
                i <= self.vertex_ids@.len(),
                is_rank_index(index@, self.vertex_ids@.take(i as int)),
            decreases self.vertex_ids.len() - i,
        {
            let ghost ids = self.vertex_ids@.take(i as int);
            let ghost longer = self.vertex_ids@.take(i + 1);
            let ghost before = index@;
            let v: VertexId = self.vertex_ids[i];
            index.insert(v, i);
            proof {
                assert(longer.drop_last() =~= ids);
                assert forall|w: VertexId| #![trigger rank_in(longer, w)] match rank_in(longer, w) {
                    Some(r) => index@.contains_key(w) && index@[w] == r,
                    None => !index@.contains_key(w),
                } by {
                    assert(before.contains_key(w) <==> rank_in(ids, w) is Some);
                }
            }
            i = i + 1;
        }
        assert(self.vertex_ids@.take(i as int) =~= self.vertex_ids@);
        self.rank_index = index;
    }

    /// The rank of a vertex.
    pub fn rank_of(&self, vertex_id: VertexId) -> (result: Option<usize>)
        requires
            is_rank_index(self.rank_index@, self.vertex_ids@),
        ensures
            match result {
                Some(rank) => rank_in(self@.ids, vertex_id) == Some(rank as int),
                None => rank_in(self@.ids, vertex_id) is None,
            },
    {
        match self.rank_index.get(&vertex_id) {
            Some(rank) => Some(*rank),
            None => None,
        }
    }
}

/// A number read as a signed one.
pub open spec fn signed(n: u64) -> int {
    if n <= i64::MAX {
        n as int
    } else {
        n - 0x1_0000_0000_0000_0000
    }
}

/// A degree after a change: it does not get negative.
pub open spec fn shifted(degree: u64, delta: int) -> u64 {
    if signed(degree) + delta < 0 {
        0
    } else {
        (signed(degree) + delta) as u64
    }
}

/// A degree after a change: it does not get negative.
pub fn shift(degree: u64, delta: i64) -> (result: u64)
    ensures
        result == shifted(degree, delta as int),
{
    let current: i128 = if degree <= 0x7fff_ffff_ffff_ffffu64 {
        degree as i128
    } else {
        degree as i128 - 0x1_0000_0000_0000_0000i128
    };
    let sum: i128 = current + delta as i128;
    if sum < 0 {
        0
    } else {
        sum as u64
    }
}

/// Degrees after changes of the vertices they belong to.
pub open spec fn changed(
    degrees: Seq<u64>,
    ids: Seq<VertexId>,
    entries: Seq<(VertexId, i64)>,
) -> Seq<u64> {
    Seq::new(
        degrees.len(),
        |r: int|
            if r < ids.len() && rank_in(ids, ids[r]) == Some(r) && change_among(entries, ids[r])
                != 0 {
                shifted(degrees[r], change_among(entries, ids[r]))
            } else {
                degrees[r]
            },
    )
}

/// How many changes are of vertices that are listed.
pub open spec fn listed_changes(ids: Seq<VertexId>, entries: Seq<(VertexId, i64)>) -> nat
    decreases entries.len(),
{
    if entries.len() == 0 {
        0
    } else {
        listed_changes(ids, entries.drop_last()) + (if rank_in(ids, entries.last().0) is Some {
            1nat
        } else {
            0
        })
    }
}

/// There are no more listed changes than changes.
pub proof fn lemma_listed_changes(ids: Seq<VertexId>, entries: Seq<(VertexId, i64)>)
    ensures
        listed_changes(ids, entries) <= entries.len(),
    decreases entries.len(),
{
    if entries.len() > 0 {
        lemma_listed_changes(ids, entries.drop_last());
    }
}

proof fn lemma_one_more(
    degrees: Seq<u64>,
    now: Seq<u64>,
    after: Seq<u64>,
    ids: Seq<VertexId>,
    entries: Seq<(VertexId, i64)>,
    i: int,
)
    requires
        ascends(entries),
        forall|j: int| 0 <= j < entries.len() ==> (#[trigger] entries[j]).1 != 0,
        0 <= i < entries.len(),
        now == changed(degrees, ids, entries.take(i)),
        match rank_in(ids, entries[i].0) {
            Some(r) => after == (if r < now.len() {
                now.update(r, shifted(now[r], entries[i].1 as int))
            } else {
                now
            }),
            None => after == now,
        },
    ensures
        after == changed(degrees, ids, entries.take(i + 1)),
{
    let shorter = entries.take(i);
    let longer = entries.take(i + 1);
    let v = entries[i].0;
    assert(longer.drop_last() =~= shorter);
    assert(longer.last() == entries[i]);
    if change_among(shorter, v) != 0 {
        let j = lemma_where(shorter, v);
        assert(entries[j].0 < entries[i].0);
    }
    lemma_rank(ids, v);
    assert forall|r: int| 0 <= r < degrees.len() implies after[r] == changed(
        degrees,
        ids,
        longer,
    )[r] by {
        if r < ids.len() {
            lemma_rank(ids, ids[r]);
        }
    }
    assert(after =~= changed(degrees, ids, longer));
}

impl LabelStatistic {
    /// Changes the degrees in one block, and says how many of the changes are of listed vertices.
    pub fn change_block(&mut self, place: usize, deltas: &Deltas) -> (result: usize)
        requires
            old(self).wf(),
            place < old(self).path_statistic.entries@.len(),
            deltas.wf(),
        ensures
            final(self).wf(),
            final(self).vertex_ids@ == old(self).vertex_ids@,
            final(self).star_statistic == old(self).star_statistic,
            final(self).path_statistic.keys() == old(self).path_statistic.keys(),
            ({
                let entry = old(self).path_statistic.entries@[place as int];
                final(self)@.paths == old(self)@.paths.insert(
                    entry.0@,
                    changed(entry.1@, old(self)@.ids, deltas.entries@),
                )
            }),
            result == listed_changes(old(self)@.ids, deltas.entries@),
    {
        let ghost ids = self.vertex_ids@;
        let ghost entries = deltas.entries@;
        let ghost before = *self;
        let ghost key = self.path_statistic.entries@[place as int].0@;
        let empty = BlockStatistic { degrees: Vec::new() };
        let mut block: BlockStatistic = self.path_statistic.exchange(place, empty);
        let ghost degrees = block@;
        let mut count: usize = 0;
        let mut i: usize = 0;
        assert(changed(degrees, ids, entries.take(0)) =~= degrees);
        while i < deltas.entries.len()
            invariant
                ids == self.vertex_ids@,
                is_rank_index(self.rank_index@, ids),
                entries == deltas.entries@,
                deltas.wf(),
                i <= entries.len(),
                count <= i,
                block@ == changed(degrees, ids, entries.take(i as int)),
                count == listed_changes(ids, entries.take(i as int)),
            decreases deltas.entries.len() - i,
        {
            let (v, delta) = deltas.entries[i];
            let ghost now = block@;
            assert(entries.take(i + 1).drop_last() =~= entries.take(i as int));
            if let Some(rank) = self.rank_of(v) {
                let current: u64 = match block.recover_upper_bound_at_rank(rank) {
                    Some(degree) => degree,
                    None => 0,
                };
                block.put(rank, shift(current, delta));
                count = count + 1;
            }
            proof {
                lemma_one_more(degrees, now, block@, ids, entries, i as int);
            }
            i = i + 1;
        }
        assert(entries.take(i as int) =~= entries);
        let ghost left = *self;
        self.path_statistic.replace(place, block);
        assert(self@.paths =~= before@.paths.insert(key, block@));
        count
    }
}

/// A path, with the label of the vertices whose degrees along it are meant.
#[derive(Debug)]
pub struct PathKey {
    pub label: String,
    pub path: AltKey,
}

impl View for PathKey {
    type V = (Seq<char>, Seq<Seq<char>>);

    open spec fn view(&self) -> (Seq<char>, Seq<Seq<char>>) {
        (self.label@, self.path@)
    }
}

impl Key for PathKey {
    fn same_key(&self, other: &PathKey) -> (result: bool) {
        is_text(self.label.as_str(), other.label.as_str()) && self.path.same_as(&other.path)
    }
}

/// The degrees that are known, by label, and which stars an arm belongs to.
#[derive(Debug)]
pub struct Statistic {
    pub label_path_statistic: Table<String, LabelStatistic>,
    pub arm_to_star_keys: Table<PathKey, Vec<StarStatKey>>,
}

/// What is known of labels.
pub open spec fn labels_in(table: Map<Seq<char>, LabelStatistic>) -> Map<Seq<char>, LabelView> {
    table.map_values(|label: LabelStatistic| label@)
}

/// The keys of the arms of a star.
pub open spec fn arm_keys(star: StarView) -> Seq<Seq<Seq<char>>> {
    star.arms.map_values(|arm: PathView| first_direction(arm.interleaved()))
}

/// Whether all arms of a star are paths.
pub open spec fn has_paths_for_arms(star: StarView) -> bool {
    forall|i: int| 0 <= i < star.arms.len() ==> (#[trigger] star.arms[i]).is_path()
}

/// What is known of a label; nothing where it is not listed.
pub open spec fn label_view(labels: Map<Seq<char>, LabelView>, label: Seq<char>) -> LabelView {
    if labels.contains_key(label) {
        labels[label]
    } else {
        LabelView { ids: Seq::empty(), paths: Map::empty(), stars: Map::empty() }
    }
}

/// Whether all the arms of all the stars of a label are paths.
pub open spec fn has_proper_stars(stars: Table<StarStatKey, BlockStatistic>) -> bool {
    forall|i: int|
        0 <= i < stars.entries@.len() ==> has_paths_for_arms((#[trigger] stars.entries@[i]).0@)
}

/// Whether a star is among keys.
pub open spec fn lists_star(stars: Seq<StarStatKey>, star: StarView) -> bool {
    exists|i: int| 0 <= i < stars.len() && (#[trigger] stars[i])@ == star
}

/// Whether no arm occurs twice, and the arms of the stars are paths.
pub open spec fn arms_wf(arms: Table<PathKey, Vec<StarStatKey>>) -> bool {
    &&& arms.wf()
    &&& forall|i: int, j: int|
        #![trigger arms.entries@[i].1@[j]]
        0 <= i < arms.entries@.len() && 0 <= j < arms.entries@[i].1@.len() ==> has_paths_for_arms(
            arms.entries@[i].1@[j]@,
        )
}

/// Whether it is noted of an arm around a center that it belongs to a star.
pub open spec fn is_noted(
    arms: Table<PathKey, Vec<StarStatKey>>,
    center: Seq<char>,
    arm: Seq<Seq<char>>,
    star: StarView,
) -> bool {
    arms@.contains_key((center, arm)) && lists_star(arms@[(center, arm)]@, star)
}

impl Statistic {
    /// What is known of each label.
    pub open spec fn labels(self) -> Map<Seq<char>, LabelView> {
        labels_in(self.label_path_statistic@)
    }

    /// No key occurs twice.
    pub open spec fn tables_wf(self) -> bool {
        &&& self.label_path_statistic.wf()
        &&& forall|i: int|
            #![trigger self.label_path_statistic.entries@[i]]
            0 <= i < self.label_path_statistic.entries@.len()
                ==> self.label_path_statistic.entries@[i].1.tables_wf() && has_proper_stars(
                self.label_path_statistic.entries@[i].1.star_statistic,
            )
    }

    /// No key occurs twice, and the ranks of vertices are indexed.
    pub open spec fn wf(self) -> bool {
        &&& self.tables_wf()
        &&& forall|i: int|
            #![trigger self.label_path_statistic.entries@[i]]
            0 <= i < self.label_path_statistic.entries@.len()
                ==> self.label_path_statistic.entries@[i].1.wf()
        &&& arms_wf(self.arm_to_star_keys)
    }

    /// Whether an arm around a center is known to belong to a star.
    pub open spec fn indexed(self, center: Seq<char>, arm: Seq<Seq<char>>, star: StarView) -> bool {
        is_noted(self.arm_to_star_keys, center, arm, star)
    }

    /// Whether there are degrees for a star.
    pub open spec fn has_star(self, star: StarView) -> bool {
        exists|label: Seq<char>| #[trigger]
            self.labels().contains_key(label) && self.labels()[label].stars.contains_key(star)
    }

    /// Whether the arms are indexed that the stars have, and no others.
    pub open spec fn index_is_complete(self) -> bool {
        forall|center: Seq<char>, arm: Seq<Seq<char>>, star: StarView| #[trigger]
            self.indexed(center, arm, star) <==> star.center == center && arm_keys(star).contains(
                arm,
            ) && self.has_star(star)
    }

    /// Nothing is known.
    pub fn new() -> (result: Statistic)
        ensures
            result.wf(),
            result.index_is_complete(),
            result.labels() == Map::<Seq<char>, LabelView>::empty(),
    {
        let result = Statistic {
            label_path_statistic: Table::new(),
            arm_to_star_keys: Table::new(),
        };
        assert(result.labels() =~= Map::empty());
        result
    }

    /// What is known of a label.
    pub fn label_statistic(&self, label: &str) -> (result: Option<&LabelStatistic>)
        requires
            self.wf(),
        ensures
            match result {
                Some(found) => self.labels().contains_key(label@) && found@
                    == self.labels()[label@] && found.wf(),
                None => !self.labels().contains_key(label@),
            },
    {
        let key: String = label.to_owned();
        match self.label_path_statistic.position(&key) {
            Some(i) => Some(&self.label_path_statistic.entries[i].1),
            None => None,
        }
    }
}

/// A vertex and a degree.
#[derive(Debug, Clone, Copy)]
pub struct VertexDegree {
    pub id: VertexId,
    pub degree: u64,
}

impl Ordered for VertexDegree {
    open spec fn at_or_before(self, other: VertexDegree) -> bool {
        self.id <= other.id
    }

    proof fn order_is_total(a: VertexDegree, b: VertexDegree) {
    }

    proof fn order_is_transitive(a: VertexDegree, b: VertexDegree, c: VertexDegree) {
    }

    fn may_precede(&self, other: &VertexDegree) -> (result: bool) {
        self.id <= other.id
    }
}

/// Vertices with their degrees, by vertex.
pub open spec fn paired(ids: Seq<VertexId>, degrees: Seq<u64>) -> Seq<VertexDegree> {
    sorted(
        Seq::new(ids.len(), |i: int| VertexDegree { id: ids[i], degree: degrees[i] }),
    )
}

/// The vertices.
pub open spec fn ids_of(pairs: Seq<VertexDegree>) -> Seq<VertexId> {
    pairs.map_values(|pair: VertexDegree| pair.id)
}

/// The degrees.
pub open spec fn degrees_of(pairs: Seq<VertexDegree>) -> Seq<u64> {
    pairs.map_values(|pair: VertexDegree| pair.degree)
}

/// The smallest of numbers.
pub open spec fn smallest(ids: Seq<VertexId>) -> VertexId
    decreases ids.len(),
{
    if ids.len() <= 1 {
        ids[0]
    } else if smallest(ids.drop_last()) <= ids.last() {
        smallest(ids.drop_last())
    } else {
        ids.last()
    }
}

/// The largest of numbers.
pub open spec fn largest(ids: Seq<VertexId>) -> VertexId
    decreases ids.len(),
{
    if ids.len() <= 1 {
        ids[0]
    } else if largest(ids.drop_last()) >= ids.last() {
        largest(ids.drop_last())
    } else {
        ids.last()
    }
}

/// Why degrees are not taken.
#[derive(Debug, Clone, Copy, PartialEq, Eq, Structural)]
pub enum StatisticError {
    /// There are not as many degrees as vertices.
    LengthMismatch,
    /// There are not as many vertices as the label has.
    LengthDiffers,
    /// The smallest or the largest vertex is not that of the label.
    RangeDiffers,
}

/// Why degrees are not taken for a label with some vertices.
pub open spec fn refusal(known: Seq<VertexId>, ids: Seq<VertexId>, degrees: Seq<u64>) -> Option<
    StatisticError,
> {
    if ids.len() != degrees.len() {
        Some(StatisticError::LengthMismatch)
    } else if known.len() == 0 {
        None
    } else if known.len() != ids.len() {
        Some(StatisticError::LengthDiffers)
    } else if smallest(known) != smallest(ids) || largest(known) != largest(ids) {
        Some(StatisticError::RangeDiffers)
    } else {
        None
    }
}

/// The vertices of a label when degrees were taken.
pub open spec fn ids_after(known: Seq<VertexId>, ids: Seq<VertexId>, degrees: Seq<u64>) -> Seq<
    VertexId,
> {
    if known.len() == 0 {
        ids_of(paired(ids, degrees))
    } else {
        known
    }
}

fn find_smallest(ids: &Vec<VertexId>) -> (result: VertexId)
    requires
        ids@.len() > 0,
    ensures
        result == smallest(ids@),
{
    let mut least: VertexId = ids[0];
    let mut i: usize = 1;
    assert(ids@.take(1)[0] == ids@[0]);
    while i < ids.len()
        invariant
            1 <= i <= ids@.len(),
            least == smallest(ids@.take(i as int)),
        decreases ids.len() - i,
    {
        assert(ids@.take(i + 1).drop_last() =~= ids@.take(i as int));
        if !(least <= ids[i]) {
            least = ids[i];
        }
        i = i + 1;
    }
    assert(ids@.take(i as int) =~= ids@);
    least
}

/// The largest of numbers.
pub fn find_largest(ids: &Vec<VertexId>) -> (result: VertexId)
    requires
        ids@.len() > 0,
    ensures
        result == largest(ids@),
{
    let mut most: VertexId = ids[0];
    let mut i: usize = 1;
    assert(ids@.take(1)[0] == ids@[0]);
    while i < ids.len()
        invariant
            1 <= i <= ids@.len(),
            most == largest(ids@.take(i as int)),
        decreases ids.len() - i,
    {
        assert(ids@.take(i + 1).drop_last() =~= ids@.take(i as int));
        if !(most >= ids[i]) {
            most = ids[i];
        }
        i = i + 1;
    }
    assert(ids@.take(i as int) =~= ids@);
    most
}

fn refuse(known: &Vec<VertexId>, ids: &Vec<VertexId>, degrees: &Vec<u64>) -> (result: Option<
    StatisticError,
>)
    ensures
        result == refusal(known@, ids@, degrees@),
{
    if ids.len() != degrees.len() {
        return Some(StatisticError::LengthMismatch);
    }
    if known.len() == 0 {
        return None;
    }
    if known.len() != ids.len() {
        return Some(StatisticError::LengthDiffers);
    }
    if find_smallest(known) != find_smallest(ids) || find_largest(known) != find_largest(ids) {
        return Some(StatisticError::RangeDiffers);
    }
    None
}

fn pair_up(ids: &Vec<VertexId>, degrees: &Vec<u64>) -> (result: (Vec<VertexId>, Vec<u64>))
    requires
        ids@.len() == degrees@.len(),
    ensures
        result.0@ == ids_of(paired(ids@, degrees@)),
        result.1@ == degrees_of(paired(ids@, degrees@)),
{
    let ghost all = Seq::new(
        ids@.len(),
        |i: int| VertexDegree { id: ids@[i], degree: degrees@[i] },
    );
    let mut pairs: Vec<VertexDegree> = Vec::new();
    let mut i: usize = 0;
    while i < ids.len()
        invariant
            ids@.len() == degrees@.len(),
            all == Seq::new(
                ids@.len(),
                |i: int| VertexDegree { id: ids@[i], degree: degrees@[i] },
            ),
            i <= ids@.len(),
            pairs@ == all.take(i as int),
        decreases ids.len() - i,
    {
        pairs.push(VertexDegree { id: ids[i], degree: degrees[i] });
        assert(pairs@ =~= all.take(i + 1));
        i = i + 1;
    }
    assert(all.take(i as int) =~= all);
    let pairs: Vec<VertexDegree> = sort(pairs);
    let mut sorted_ids: Vec<VertexId> = Vec::new();
    let mut sorted_degrees: Vec<u64> = Vec::new();
    let mut j: usize = 0;
    while j < pairs.len()
        invariant
            j <= pairs@.len(),
            sorted_ids@ == ids_of(pairs@).take(j as int),
            sorted_degrees@ == degrees_of(pairs@).take(j as int),
        decreases pairs.len() - j,
    {
        sorted_ids.push(pairs[j].id);
        sorted_degrees.push(pairs[j].degree);
        assert(sorted_ids@ =~= ids_of(pairs@).take(j + 1));
        assert(sorted_degrees@ =~= degrees_of(pairs@).take(j + 1));
        j = j + 1;
    }
    assert(ids_of(pairs@).take(j as int) =~= ids_of(pairs@));
    assert(degrees_of(pairs@).take(j as int) =~= degrees_of(pairs@));
    (sorted_ids, sorted_degrees)
}

impl Statistic {
    /// Gets a label ready for degrees of vertices, and the degrees by vertex.
    fn prepare(&mut self, label: &str, vertex_ids: &Vec<VertexId>, frequencies: &Vec<u64>) -> (result:
        Result<(usize, BlockStatistic), StatisticError>)
        requires
            old(self).wf(),
        ensures
            final(self).wf(),
            final(self).arm_to_star_keys == old(self).arm_to_star_keys,
            ({
                let before = label_view(old(self).labels(), label@);
                match refusal(before.ids, vertex_ids@, frequencies@) {
                    Some(error) => result == Err::<(usize, BlockStatistic), _>(error)
                        && *final(self) == *old(self),
                    None => result matches Ok((place, block)) && {
                        &&& place < final(self).label_path_statistic.entries@.len()
                        &&& final(self).label_path_statistic.entries@[place as int].0@ == label@
                        &&& final(self).labels() == old(self).labels().insert(
                            label@,
                            LabelView {
                                ids: ids_after(before.ids, vertex_ids@, frequencies@),
                                paths: before.paths,
                                stars: before.stars,
                            },
                        )
                        &&& block@ == degrees_of(paired(vertex_ids@, frequencies@))
                    },
                }
            }),
    {
        let ghost start = *self;
        let key: String = label.to_owned();
        let none: Vec<VertexId> = Vec::new();
        let found: Option<usize> = self.label_path_statistic.position(&key);
        let fault: Option<StatisticError> = match found {
            Some(i) => refuse(
                &self.label_path_statistic.entries[i].1.vertex_ids,
                vertex_ids,
                frequencies,
            ),
            None => refuse(&none, vertex_ids, frequencies),
        };
        if let Some(error) = fault {
            return Err(error);
        }
        let (ids, degrees) = pair_up(vertex_ids, frequencies);
        let block = BlockStatistic { degrees };
        match found {
            Some(i) => {
                let mut known: LabelStatistic = self.label_path_statistic.exchange(
                    i,
                    LabelStatistic::new(),
                );
                if known.vertex_ids.len() == 0 {
                    known.vertex_ids = ids;
                    known.rebuild_rank_index();
                }
                assert(known@ =~= LabelView {
                    ids: ids_after(
                        label_view(start.labels(), label@).ids,
                        vertex_ids@,
                        frequencies@,
                    ),
                    paths: label_view(start.labels(), label@).paths,
                    stars: label_view(start.labels(), label@).stars,
                });
                self.label_path_statistic.replace(i, known);
                assert(self.labels() =~= start.labels().insert(label@, known@));
                Ok((i, block))
            },
            None => {
                let mut known = LabelStatistic::new();
                known.vertex_ids = ids;
                known.rebuild_rank_index();
                let i: usize = self.label_path_statistic.len();
                self.label_path_statistic.append(key, known);
                assert(known.wf());
                assert(self.labels() =~= start.labels().insert(label@, known@));
                Ok((i, block))
            },
        }
    }
}

/// A label with other degrees along one path.
pub open spec fn with_path(
    label: LabelView,
    ids: Seq<VertexId>,
    key: Seq<Seq<char>>,
    degrees: Seq<u64>,
) -> LabelView {
    LabelView { ids, paths: label.paths.insert(key, degrees), stars: label.stars }
}

/// A label with other degrees in one star.
pub open spec fn with_star(
    label: LabelView,
    ids: Seq<VertexId>,
    key: StarView,
    degrees: Seq<u64>,
) -> LabelView {
    LabelView { ids, paths: label.paths, stars: label.stars.insert(key, degrees) }
}

/// Where the same stars are listed, the index stays complete.
pub proof fn lemma_same_stars(before: Statistic, after: Statistic)
    requires
        before.arm_to_star_keys == after.arm_to_star_keys,
        forall|label: Seq<char>, star: StarView|
            #![trigger after.labels()[label].stars.contains_key(star)]
            #![trigger before.labels()[label].stars.contains_key(star)]
            (after.labels().contains_key(label) && after.labels()[label].stars.contains_key(star))
                == (before.labels().contains_key(label)
                && before.labels()[label].stars.contains_key(star)),
        before.index_is_complete(),
    ensures
        after.index_is_complete(),
{
    assert forall|center: Seq<char>, arm: Seq<Seq<char>>, star: StarView| #[trigger]
        after.indexed(center, arm, star) <==> star.center == center && arm_keys(star).contains(arm)
            && after.has_star(star) by {
        assert(before.indexed(center, arm, star) == after.indexed(center, arm, star));
        if after.has_star(star) {
            let label = choose|label: Seq<char>| #[trigger]
                after.labels().contains_key(label) && after.labels()[label].stars.contains_key(
                    star,
                );
            assert(before.labels()[label].stars.contains_key(star));
        }
        if before.has_star(star) {
            let label = choose|label: Seq<char>| #[trigger]
                before.labels().contains_key(label) && before.labels()[label].stars.contains_key(
                    star,
                );
            assert(after.labels()[label].stars.contains_key(star));
        }
    }
}

/// The keys of the arms of a star.
pub fn keys_of_arms(star: &StarStatKey) -> (result: Vec<AltKey>)
    requires
        has_paths_for_arms(star@),
    ensures
        result@.len() == arm_keys(star@).len(),
        forall|i: int|
            #![trigger result@[i]]
            0 <= i < result@.len() ==> result@[i]@ == arm_keys(star@)[i],
{
    let mut result: Vec<AltKey> = Vec::new();
    let mut i: usize = 0;
    assert(star@.arms.len() == star.arms@.len());
    while i < star.arms.len()
        invariant
            has_paths_for_arms(star@),
            star@.arms.len() == star.arms@.len(),
            i <= star.arms@.len(),
            result@.len() == i,
            forall|j: int|
                #![trigger result@[j]]
                0 <= j < i ==> result@[j]@ == arm_keys(star@)[j],
        decreases star.arms.len() - i,
    {
        assert(star@.arms[i as int] == star.arms@[i as int]@);
        assert(star@.arms[i as int].is_path());
        result.push(star.arms[i].to_alt_key());
        i = i + 1;
    }
    result
}

impl Statistic {
    /// Takes the degrees of vertices along a path.
    pub fn insert_or_update(
        &mut self,
        label: &str,
        vertex_ids: &Vec<VertexId>,
        alt_key: AltKey,
        frequencies: &Vec<u64>,
    ) -> (result: Result<(), StatisticError>)
        requires
            old(self).wf(),
        ensures
            final(self).wf(),
            old(self).index_is_complete() ==> final(self).index_is_complete(),
            ({
                let before = label_view(old(self).labels(), label@);
                match refusal(before.ids, vertex_ids@, frequencies@) {
                    Some(error) => result == Err::<(), _>(error) && *final(self) == *old(self),
                    None => result is Ok && final(self).labels() == old(self).labels().insert(
                        label@,
                        with_path(
                            before,
                            ids_after(before.ids, vertex_ids@, frequencies@),
                            alt_key@,
                            degrees_of(paired(vertex_ids@, frequencies@)),
                        ),
                    ),
                }
            }),
    {
        let ghost start = *self;
        match self.prepare(label, vertex_ids, frequencies) {
            Err(error) => Err(error),
            Ok((i, block)) => {
                let ghost ready = *self;
                let ghost degrees = block@;
                let ghost known_view = self.label_path_statistic.entries@[i as int].1@;
                proof {
                    self.label_path_statistic.lemma_entry(i as int);
                }
                let mut known: LabelStatistic = self.label_path_statistic.exchange(
                    i,
                    LabelStatistic::new(),
                );
                assert(ready.labels()[label@] == known@);
                known.path_statistic.insert(alt_key, block);
                assert(known@.paths =~= known_view.paths.insert(alt_key@, degrees));
                self.label_path_statistic.replace(i, known);
                proof {
                    let before = label_view(start.labels(), label@);
                    assert(known@ =~= with_path(
                        before,
                        ids_after(before.ids, vertex_ids@, frequencies@),
                        alt_key@,
                        degrees,
                    ));
                    assert(self.label_path_statistic@ =~= ready.label_path_statistic@.insert(
                        label@,
                        known,
                    ));
                    assert(self.labels() =~= ready.labels().insert(label@, known@));
                    assert(self.labels() =~= start.labels().insert(label@, known@));
                    if start.index_is_complete() {
                        lemma_same_stars(start, *self);
                    }
                }
                Ok(())
            },
        }
    }
}

/// Notes that an arm belongs to a star.
fn note_arm(
    arms: &mut Table<PathKey, Vec<StarStatKey>>,
    center: &String,
    arm: AltKey,
    star: &StarStatKey,
)
    requires
        arms_wf(*old(arms)),
        has_paths_for_arms(star@),
    ensures
        arms_wf(*final(arms)),
        forall|c: Seq<char>, a: Seq<Seq<char>>, s: StarView| #[trigger]
            is_noted(*final(arms), c, a, s) == (is_noted(*old(arms), c, a, s) || c == center@ && a
                == arm@ && s == star@),
{
    let ghost start = *arms;
    let key = PathKey { label: center.as_str().to_owned(), path: arm };
    match arms.position(&key) {
        Some(i) => {
            let mut stars: Vec<StarStatKey> = arms.exchange(i, Vec::new());
            let ghost before = stars@;
            stars.push(star.copy());
            proof {
                assert(stars@.drop_last() =~= before);
                lemma_star_added(before, stars@, star@);
            }
            arms.replace(i, stars);
            assert(arms@ =~= start@.insert(key@, stars));
        },
        None => {
            let mut stars: Vec<StarStatKey> = Vec::new();
            let ghost before = stars@;
            stars.push(star.copy());
            proof {
                assert(stars@.drop_last() =~= before);
                lemma_star_added(before, stars@, star@);
            }
            arms.append(key, stars);
        },
    }
}

/// Notes that the arms of a star belong to it.
fn note_star(arms: &mut Table<PathKey, Vec<StarStatKey>>, star: &StarStatKey)
    requires
        arms_wf(*old(arms)),
        has_paths_for_arms(star@),
    ensures
        arms_wf(*final(arms)),
        forall|c: Seq<char>, a: Seq<Seq<char>>, s: StarView| #[trigger]
            is_noted(*final(arms), c, a, s) == (is_noted(*old(arms), c, a, s) || s == star@ && c
                == s.center && arm_keys(s).contains(a)),
{
    let ghost start = *arms;
    let ghost all = arm_keys(star@);
    let keys: Vec<AltKey> = keys_of_arms(star);
    let mut i: usize = 0;
    assert(star@.center == star.center_label@);
    while i < keys.len()
        invariant
            has_paths_for_arms(star@),
            star@.center == star.center_label@,
            all == arm_keys(star@),
            keys@.len() == all.len(),
            forall|j: int| #![trigger keys@[j]] 0 <= j < keys@.len() ==> keys@[j]@ == all[j],
            i <= keys@.len(),
            arms_wf(*arms),
            forall|c: Seq<char>, a: Seq<Seq<char>>, s: StarView| #[trigger]
                is_noted(*arms, c, a, s) == (is_noted(start, c, a, s) || s == star@ && c
                    == s.center && all.take(i as int).contains(a)),
        decreases keys.len() - i,
    {
        let ghost before = *arms;
        note_arm(arms, &star.center_label, keys[i].copy(), star);
        proof {
            let shorter = all.take(i as int);
            let longer = all.take(i + 1);
            assert(longer =~= shorter.push(all[i as int]));
            assert forall|a: Seq<Seq<char>>| longer.contains(a) == (#[trigger] shorter.contains(a)
                || a == all[i as int]) by {
                if shorter.contains(a) {
                    let k = choose|k: int| 0 <= k < shorter.len() && shorter[k] == a;
                    assert(longer[k] == a);
                }
                assert(longer[i as int] == all[i as int]);
            }
            assert forall|c: Seq<char>, a: Seq<Seq<char>>, s: StarView| #[trigger]
                is_noted(*arms, c, a, s) == (is_noted(start, c, a, s) || s == star@ && c
                    == s.center && longer.contains(a)) by {
                assert(shorter.contains(a) || !shorter.contains(a));
                assert(is_noted(before, c, a, s) || !is_noted(before, c, a, s));
            }
        }
        i = i + 1;
    }
    assert(all.take(i as int) =~= all);
}

/// One more star is listed.
pub proof fn lemma_star_added(before: Seq<StarStatKey>, after: Seq<StarStatKey>, star: StarView)
    requires
        after.len() == before.len() + 1,
        after.drop_last() == before,
        after.last()@ == star,
    ensures
        forall|s: StarView| #[trigger] lists_star(after, s) == (lists_star(before, s) || s == star),
{
    assert forall|s: StarView| #[trigger]
        lists_star(after, s) == (lists_star(before, s) || s == star) by {
        if lists_star(before, s) {
            let i = choose|i: int| 0 <= i < before.len() && (#[trigger] before[i])@ == s;
            assert(after[i] == after.drop_last()[i]);
        }
        if lists_star(after, s) {
            let i = choose|i: int| 0 <= i < after.len() && (#[trigger] after[i])@ == s;
            if i < before.len() {
                assert(before[i] == after.drop_last()[i]);
            }
        }
        assert(after[after.len() - 1]@ == star);
    }
}

impl Statistic {
    /// Takes the degrees of vertices in a star.
    pub fn insert_or_update_star(
        &mut self,
        label: &str,
        vertex_ids: &Vec<VertexId>,
        star_key: StarStatKey,
        frequencies: &Vec<u64>,
    ) -> (result: Result<(), StatisticError>)
        requires
            old(self).wf(),
            has_paths_for_arms(star_key@),
        ensures
            final(self).wf(),
            old(self).index_is_complete() ==> final(self).index_is_complete(),
            ({
                let before = label_view(old(self).labels(), label@);
                match refusal(before.ids, vertex_ids@, frequencies@) {
                    Some(error) => result == Err::<(), _>(error) && *final(self) == *old(self),
                    None => {
                        &&& result is Ok
                        &&& final(self).labels() == old(self).labels().insert(
                            label@,
                            with_star(
                                before,
                                ids_after(before.ids, vertex_ids@, frequencies@),
                                star_key@,
                                degrees_of(paired(vertex_ids@, frequencies@)),
                            ),
                        )
                        &&& forall|c: Seq<char>, a: Seq<Seq<char>>, s: StarView| #[trigger]
                            final(self).indexed(c, a, s) == (old(self).indexed(c, a, s) || s
                                == star_key@ && c == s.center && arm_keys(s).contains(a))
                    },
                }
            }),
    {
        let ghost start = *self;
        match self.prepare(label, vertex_ids, frequencies) {
            Err(error) => Err(error),
            Ok((i, block)) => {
                let ghost ready = *self;
                let ghost degrees = block@;
                let ghost known_view = self.label_path_statistic.entries@[i as int].1@;
                proof {
                    self.label_path_statistic.lemma_entry(i as int);
                }
                note_star(&mut self.arm_to_star_keys, &star_key);
                let mut known: LabelStatistic = self.label_path_statistic.exchange(
                    i,
                    LabelStatistic::new(),
                );
                assert(ready.labels()[label@] == known@);
                let ghost stars = known.star_statistic;
                known.star_statistic.insert(star_key, block);
                proof {
                    assert(known@.stars =~= known_view.stars.insert(star_key@, degrees));
                    lemma_star_kept(stars, known.star_statistic, star_key@);
                }
                self.label_path_statistic.replace(i, known);
                proof {
                    let before = label_view(start.labels(), label@);
                    assert(known@ =~= with_star(
                        before,
                        ids_after(before.ids, vertex_ids@, frequencies@),
                        star_key@,
                        degrees,
                    ));
                    assert(self.label_path_statistic@ =~= ready.label_path_statistic@.insert(
                        label@,
                        known,
                    ));
                    assert(self.labels() =~= ready.labels().insert(label@, known@));
                    assert(self.labels() =~= start.labels().insert(label@, known@));
                    assert forall|c: Seq<char>, a: Seq<Seq<char>>, s: StarView| #[trigger]
                        self.indexed(c, a, s) == (start.indexed(c, a, s) || s == star_key@ && c
                            == s.center && arm_keys(s).contains(a)) by {
                        assert(is_noted(self.arm_to_star_keys, c, a, s) == (is_noted(
                            start.arm_to_star_keys,
                            c,
                            a,
                            s,
                        ) || s == star_key@ && c == s.center && arm_keys(s).contains(a)));
                    }
                    if start.index_is_complete() {
                        lemma_index_grows(start, *self, label@, star_key@);
                    }
                }
                Ok(())
            },
        }
    }
}

proof fn lemma_star_kept(
    before: Table<StarStatKey, BlockStatistic>,
    after: Table<StarStatKey, BlockStatistic>,
    star: StarView,
)
    requires
        has_proper_stars(before),
        has_paths_for_arms(star),
        after.keys() == before.keys() || after.keys() == before.keys().push(star),
    ensures
        has_proper_stars(after),
{
    assert forall|i: int| 0 <= i < after.entries@.len() implies has_paths_for_arms(
        (#[trigger] after.entries@[i]).0@,
    ) by {
        assert(after.keys()[i] == after.entries@[i].0@);
        assert(after.keys().len() == after.entries@.len());
        assert(before.keys().len() == before.entries@.len());
        if i < before.entries@.len() {
            assert(before.keys()[i] == before.entries@[i].0@);
        }
    }
}

proof fn lemma_index_grows(
    before: Statistic,
    after: Statistic,
    label: Seq<char>,
    star: StarView,
)
    requires
        before.index_is_complete(),
        after.labels().contains_key(label),
        after.labels() == before.labels().insert(label, after.labels()[label]),
        after.labels()[label].stars.dom() == label_view(
            before.labels(),
            label,
        ).stars.dom().insert(star),
        forall|c: Seq<char>, a: Seq<Seq<char>>, s: StarView| #[trigger]
            after.indexed(c, a, s) == (before.indexed(c, a, s) || s == star && c == s.center
                && arm_keys(s).contains(a)),
    ensures
        after.index_is_complete(),
{
    assert forall|s: StarView| #[trigger] after.has_star(s) == (before.has_star(s) || s == star) by {
        if before.has_star(s) {
            let l = choose|l: Seq<char>| #[trigger]
                before.labels().contains_key(l) && before.labels()[l].stars.contains_key(s);
            assert(after.labels().contains_key(l));
            assert(after.labels()[l].stars.contains_key(s));
        }
        if after.has_star(s) {
            let l = choose|l: Seq<char>| #[trigger]
                after.labels().contains_key(l) && after.labels()[l].stars.contains_key(s);
            if l == label {
                if s != star {
                    assert(label_view(before.labels(), label).stars.contains_key(s));
                    assert(before.labels().contains_key(l));
                }
            } else {
                assert(before.labels().contains_key(l));
            }
        }
        if s == star {
            assert(after.labels()[label].stars.contains_key(s));
        }
    }
    assert forall|c: Seq<char>, a: Seq<Seq<char>>, s: StarView| #[trigger]
        after.indexed(c, a, s) <==> s.center == c && arm_keys(s).contains(a) && after.has_star(
            s,
        ) by {
        assert(before.indexed(c, a, s) <==> s.center == c && arm_keys(s).contains(a)
            && before.has_star(s));
    }
}

/// Whether a star is among the first stars of the first labels.
pub open spec fn star_among(
    labels: Seq<(String, LabelStatistic)>,
    n: int,
    m: int,
    star: StarView,
) -> bool {
    exists|i: int, j: int|
        #![trigger labels[i].1.star_statistic.entries@[j]]
        0 <= i <= n && i < labels.len() && 0 <= j < labels[i].1.star_statistic.entries@.len() && (i
            < n || j < m) && labels[i].1.star_statistic.entries@[j].0@ == star
}

impl Statistic {
    /// Makes the index of arms anew.
    pub fn rebuild_arm_to_star_keys(&mut self)
        requires
            old(self).tables_wf(),
        ensures
            final(self).label_path_statistic == old(self).label_path_statistic,
            arms_wf(final(self).arm_to_star_keys),
            final(self).index_is_complete(),
    {
        let mut arms: Table<PathKey, Vec<StarStatKey>> = Table::new();
        let ghost labels = self.label_path_statistic.entries@;
        let mut i: usize = 0;
        while i < self.label_path_statistic.entries.len()
            invariant
                *self == *old(self),
                self.tables_wf(),
                labels == self.label_path_statistic.entries@,
                i <= labels.len(),
                arms_wf(arms),
                forall|c: Seq<char>, a: Seq<Seq<char>>, s: StarView| #[trigger]
                    is_noted(arms, c, a, s) == (star_among(labels, i as int, 0, s) && c
                        == s.center && arm_keys(s).contains(a)),
            decreases self.label_path_statistic.entries.len() - i,
        {
            let ghost stars = labels[i as int].1.star_statistic.entries@;
            let mut j: usize = 0;
            while j < self.label_path_statistic.entries[i].1.star_statistic.entries.len()
                invariant
                    *self == *old(self),
                    self.tables_wf(),
                    labels == self.label_path_statistic.entries@,
                    i < labels.len(),
                    stars == labels[i as int].1.star_statistic.entries@,
                    j <= stars.len(),
                    arms_wf(arms),
                    forall|c: Seq<char>, a: Seq<Seq<char>>, s: StarView| #[trigger]
                        is_noted(arms, c, a, s) == (star_among(labels, i as int, j as int, s) && c
                            == s.center && arm_keys(s).contains(a)),
                decreases stars.len() - j,
            {
                let ghost before = arms;
                assert(has_proper_stars(labels[i as int].1.star_statistic));
                assert(has_paths_for_arms(stars[j as int].0@));
                note_star(
                    &mut arms,
                    &self.label_path_statistic.entries[i].1.star_statistic.entries[j].0,
                );
                proof {
                    assert forall|c: Seq<char>, a: Seq<Seq<char>>, s: StarView| #[trigger]
                        is_noted(arms, c, a, s) == (star_among(labels, i as int, j + 1, s) && c
                            == s.center && arm_keys(s).contains(a)) by {
                        assert(is_noted(before, c, a, s) == (star_among(
                            labels,
                            i as int,
                            j as int,
                            s,
                        ) && c == s.center && arm_keys(s).contains(a)));
                        if star_among(labels, i as int, j as int, s) {
                            let (x, y) = choose|x: int, y: int|
                                #![trigger labels[x].1.star_statistic.entries@[y]]
                                0 <= x <= i && x < labels.len() && 0 <= y
                                    < labels[x].1.star_statistic.entries@.len() && (x < i || y < j)
                                    && labels[x].1.star_statistic.entries@[y].0@ == s;
                            assert(labels[x].1.star_statistic.entries@[y].0@ == s);
                        }
                        if star_among(labels, i as int, j + 1, s) {
                            let (x, y) = choose|x: int, y: int|
                                #![trigger labels[x].1.star_statistic.entries@[y]]
                                0 <= x <= i && x < labels.len() && 0 <= y
                                    < labels[x].1.star_statistic.entries@.len() && (x < i || y < j
                                    + 1) && labels[x].1.star_statistic.entries@[y].0@ == s;
                            if x < i || y < j {
                                assert(star_among(labels, i as int, j as int, s));
                            } else {
                                assert(s == stars[j as int].0@);
                            }
                        }
                        assert(labels[i as int].1.star_statistic.entries@[j as int] == stars[j as int]);
                    }
                }
                j = j + 1;
            }
            proof {
                assert forall|c: Seq<char>, a: Seq<Seq<char>>, s: StarView| #[trigger]
                    is_noted(arms, c, a, s) == (star_among(labels, i + 1, 0, s) && c == s.center
                        && arm_keys(s).contains(a)) by {
                    if star_among(labels, i as int, j as int, s) {
                        let (x, y) = choose|x: int, y: int|
                            #![trigger labels[x].1.star_statistic.entries@[y]]
                            0 <= x <= i && x < labels.len() && 0 <= y
                                < labels[x].1.star_statistic.entries@.len() && (x < i || y < j)
                                && labels[x].1.star_statistic.entries@[y].0@ == s;
                        assert(star_among(labels, i + 1, 0, s));
                    }
                    if star_among(labels, i + 1, 0, s) {
                        let (x, y) = choose|x: int, y: int|
                            #![trigger labels[x].1.star_statistic.entries@[y]]
                            0 <= x <= i + 1 && x < labels.len() && 0 <= y
                                < labels[x].1.star_statistic.entries@.len() && (x < i + 1 || y < 0)
                                && labels[x].1.star_statistic.entries@[y].0@ == s;
                        assert(star_among(labels, i as int, j as int, s));
                    }
                }
            }
            i = i + 1;
        }
        self.arm_to_star_keys = arms;
        proof {
            assert forall|c: Seq<char>, a: Seq<Seq<char>>, s: StarView| #[trigger]
                self.indexed(c, a, s) <==> s.center == c && arm_keys(s).contains(a)
                    && self.has_star(s) by {
                assert(is_noted(arms, c, a, s) == (star_among(labels, i as int, 0, s) && c
                    == s.center && arm_keys(s).contains(a)));
                lemma_star_among(*self, s);
            }
        }
    }

    /// Makes all indexes anew.
    pub fn rebuild_indexes(&mut self)
        requires
            old(self).tables_wf(),
        ensures
            final(self).wf(),
            final(self).labels() == old(self).labels(),
            final(self).index_is_complete(),
    {
        let ghost start = *self;
        let mut i: usize = 0;
        while i < self.label_path_statistic.entries.len()
            invariant
                self.tables_wf(),
                self.labels() == start.labels(),
                self.label_path_statistic.entries@.len()
                    == start.label_path_statistic.entries@.len(),
                i <= self.label_path_statistic.entries@.len(),
                forall|j: int|
                    #![trigger self.label_path_statistic.entries@[j]]
                    0 <= j < i ==> self.label_path_statistic.entries@[j].1.wf(),
            decreases self.label_path_statistic.entries.len() - i,
        {
            let ghost before = *self;
            proof {
                self.label_path_statistic.lemma_entry(i as int);
            }
            let mut known: LabelStatistic = self.label_path_statistic.exchange(
                i,
                LabelStatistic::new(),
            );
            let ghost view = known@;
            known.rebuild_rank_index();
            self.label_path_statistic.replace(i, known);
            assert(self.label_path_statistic@ =~= before.label_path_statistic@.insert(
                before.label_path_statistic.entries@[i as int].0@,
                known,
            ));
            assert(self.labels() =~= before.labels());
            i = i + 1;
        }
        self.rebuild_arm_to_star_keys();
    }
}

proof fn lemma_star_among(statistic: Statistic, star: StarView)
    requires
        statistic.tables_wf(),
    ensures
        statistic.has_star(star) == star_among(
            statistic.label_path_statistic.entries@,
            statistic.label_path_statistic.entries@.len() as int,
            0,
            star,
        ),
{
    let labels = statistic.label_path_statistic.entries@;
    let n = labels.len() as int;
    if star_among(labels, n, 0, star) {
        let (x, y) = choose|x: int, y: int|
            #![trigger labels[x].1.star_statistic.entries@[y]]
            0 <= x <= n && x < labels.len() && 0 <= y < labels[x].1.star_statistic.entries@.len()
                && (x < n || y < 0) && labels[x].1.star_statistic.entries@[y].0@ == star;
        statistic.label_path_statistic.lemma_entry(x);
        labels[x].1.star_statistic.lemma_entry(y);
        assert(statistic.labels().contains_key(labels[x].0@));
        assert(statistic.labels()[labels[x].0@].stars.contains_key(star));
    }
    if statistic.has_star(star) {
        let label = choose|label: Seq<char>| #[trigger]
            statistic.labels().contains_key(label) && statistic.labels()[label].stars.contains_key(
                star,
            );
        let x = statistic.label_path_statistic.lemma_key(label);
        let y = labels[x].1.star_statistic.lemma_key(star);
        assert(labels[x].1.star_statistic.entries@[y].0@ == star);
    }
}

/// Vertices with their degrees are listed by vertex, each with the degree that was given for it;
/// no other degree is listed.
pub proof fn degrees_go_with_their_vertices(ids: Seq<VertexId>, degrees: Seq<u64>, v: VertexId, d: u64)
    requires
        ids.len() == degrees.len(),
    ensures
        ({
            let pairs = paired(ids, degrees);
            &&& ids_of(pairs).len() == ids.len()
            &&& degrees_of(pairs).len() == ids.len()
            &&& forall|i: int, j: int|
                #![trigger ids_of(pairs)[i], ids_of(pairs)[j]]
                0 <= i < j < ids.len() ==> ids_of(pairs)[i] <= ids_of(pairs)[j]
            &&& (exists|i: int|
                #![trigger ids[i]]
                0 <= i < ids.len() && ids[i] == v && degrees[i] == d) <==> (exists|k: int|
                #![trigger ids_of(pairs)[k]]
                0 <= k < ids.len() && ids_of(pairs)[k] == v && degrees_of(pairs)[k] == d)
        }),
{
    let given = Seq::new(ids.len(), |i: int| VertexDegree { id: ids[i], degree: degrees[i] });
    let pairs = paired(ids, degrees);
    let asked = VertexDegree { id: v, degree: d };
    sorting_orders_the_values(given);
    assert forall|i: int, j: int|
        #![trigger ids_of(pairs)[i], ids_of(pairs)[j]]
        0 <= i < j < ids.len() implies ids_of(pairs)[i] <= ids_of(pairs)[j] by {
        assert(pairs[i].at_or_before(pairs[j]));
    }
    if exists|i: int| #![trigger ids[i]] 0 <= i < ids.len() && ids[i] == v && degrees[i] == d {
        let i = choose|i: int|
            #![trigger ids[i]]
            0 <= i < ids.len() && ids[i] == v && degrees[i] == d;
        assert(given[i] == asked);
        assert(given.contains(asked));
        let k = choose|k: int| 0 <= k < pairs.len() && pairs[k] == asked;
        assert(ids_of(pairs)[k] == v && degrees_of(pairs)[k] == d);
    }
    if exists|k: int|
        #![trigger ids_of(pairs)[k]]
        0 <= k < ids.len() && ids_of(pairs)[k] == v && degrees_of(pairs)[k] == d {
        let k = choose|k: int|
            #![trigger ids_of(pairs)[k]]
            0 <= k < ids.len() && ids_of(pairs)[k] == v && degrees_of(pairs)[k] == d;
        assert(pairs[k] == asked);
        assert(pairs.contains(asked));
        assert(given.contains(asked));
        let i = choose|i: int| 0 <= i < given.len() && given[i] == asked;
        assert(ids[i] == v && degrees[i] == d);
    }
}

/// The smallest and the largest of numbers are among them, and all the others lie between.
pub proof fn numbers_lie_between_the_ends(ids: Seq<VertexId>, i: int)
    requires
        0 <= i < ids.len(),
    ensures
        ids.contains(smallest(ids)),
        ids.contains(largest(ids)),
        smallest(ids) <= ids[i] <= largest(ids),
    decreases ids.len(),
{
    if ids.len() > 1 {
        let fewer = ids.drop_last();
        numbers_lie_between_the_ends(
            fewer,
            if i < fewer.len() {
                i
            } else {
                0
            },
        );
        let a = choose|a: int| 0 <= a < fewer.len() && fewer[a] == smallest(fewer);
        let b = choose|b: int| 0 <= b < fewer.len() && fewer[b] == largest(fewer);
        assert(ids[a] == smallest(fewer) && ids[b] == largest(fewer));
        assert(ids[ids.len() - 1] == ids.last());
    } else {
        assert(ids[0] == smallest(ids));
    }
}

/// Degrees for a label are taken exactly where there is one for each vertex and, where vertices
/// are known already, there are as many vertices with the same ends.
pub proof fn degrees_are_taken_for_known_vertices(
    known: Seq<VertexId>,
    ids: Seq<VertexId>,
    degrees: Seq<u64>,
    v: VertexId,
)
    requires
        refusal(known, ids, degrees) is None,
        known.len() > 0,
    ensures
        ids.len() == degrees.len() == known.len(),
        (forall|i: int| #![trigger ids[i]] 0 <= i < ids.len() ==> v <= ids[i]) <==> (forall|i: int|
            #![trigger known[i]]
            0 <= i < known.len() ==> v <= known[i]),
        (forall|i: int| #![trigger ids[i]] 0 <= i < ids.len() ==> ids[i] <= v) <==> (forall|i: int|
            #![trigger known[i]]
            0 <= i < known.len() ==> known[i] <= v),
        ids_after(known, ids, degrees) == known,
{
    numbers_lie_between_the_ends(ids, 0);
    numbers_lie_between_the_ends(known, 0);
    assert forall|i: int| 0 <= i < ids.len() implies smallest(ids) <= #[trigger] ids[i] <= largest(
        ids,
    ) by {
        numbers_lie_between_the_ends(ids, i);
    }
    assert forall|i: int| 0 <= i < known.len() implies smallest(known) <= #[trigger] known[i]
        <= largest(known) by {
        numbers_lie_between_the_ends(known, i);
    }
    let a = choose|a: int| 0 <= a < ids.len() && ids[a] == smallest(ids);
    let b = choose|b: int| 0 <= b < ids.len() && ids[b] == largest(ids);
    let c = choose|c: int| 0 <= c < known.len() && known[c] == smallest(known);
    let d = choose|d: int| 0 <= d < known.len() && known[d] == largest(known);
    assert(ids[a] == known[c] && ids[b] == known[d]);
}

/// So many changes are made as there are entries for vertices that are listed.
pub proof fn listed_changes_are_counted(ids: Seq<VertexId>, entries: Seq<(VertexId, i64)>)
    ensures
        listed_changes(ids, entries) == places(
            entries.len() as int,
            |k: int| ids.contains(entries[k].0),
        ).len(),
    decreases entries.len(),
{
    let wanted = |k: int| ids.contains(entries[k].0);
    if entries.len() == 0 {
        lemma_no_places(wanted);
    } else {
        let n = entries.len() as int;
        let fewer = entries.drop_last();
        listed_changes_are_counted(ids, fewer);
        lemma_places_alike(n - 1, wanted, |k: int| ids.contains(fewer[k].0));
        lemma_places_finite(n - 1, wanted);
        lemma_places_step(n, wanted);
        lemma_rank(ids, entries.last().0);
    }
}

} // verus!
