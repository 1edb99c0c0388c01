//! Degrees in stars, when degrees along their arms have changed.
use crate::deltas::{change_among, Deltas};
use crate::embeddings::{is_degree, lemma_product};
use crate::pattern::{AltKey, StarStatKey, StarView};
use crate::query::VertexId;
use crate::stars::{saturated, saturating_product};
use crate::statistic::{
    arm_keys, has_paths_for_arms, is_noted, keys_of_arms, lemma_rank, lemma_star_added, lists_star,
    rank_in, PathKey, BlockStatistic, LabelStatistic, LabelView, Statistic,
};
use crate::table::{Key, Table};
use crate::updates::{lemma_label_replaced, lemma_proper_stars_kept};
use vstd::prelude::*;
use vstd::string::*;

verus! {

/// The degree at a rank; zero where there is none.
pub open spec fn degree_at(degrees: Seq<u64>, rank: int) -> u64 {
    if rank < degrees.len() {
        degrees[rank]
    } else {
        0
    }
}

/// The product of the degrees at a rank along the first `n` arms, as far as it fits.
pub open spec fn product_at(
    paths: Map<Seq<Seq<char>>, Seq<u64>>,
    arms: Seq<Seq<Seq<char>>>,
    n: int,
    rank: int,
) -> u64
    decreases n,
{
    if n <= 0 {
        1
    } else {
        saturated(product_at(paths, arms, n - 1, rank) * degree_at(paths[arms[n - 1]], rank))
    }
}

/// Whether there are degrees along all arms of a star.
pub open spec fn has_arms(label: LabelView, star: StarView) -> bool {
    forall|i: int|
        0 <= i < arm_keys(star).len() ==> label.paths.contains_key(#[trigger] arm_keys(star)[i])
}

/// Which vertices of a label have to be looked at for a star.
pub type Hits = spec_fn(Seq<char>, StarView, VertexId) -> bool;

/// The degrees in a star when those of some vertices were computed anew.
pub open spec fn star_after(
    label: LabelView,
    name: Seq<char>,
    star: StarView,
    hits: Hits,
) -> Seq<u64> {
    let degrees = label.stars[star];
    if has_arms(label, star) {
        Seq::new(
            degrees.len(),
            |r: int|
                if r < label.ids.len() && rank_in(label.ids, label.ids[r]) == Some(r) && hits(
                    name,
                    star,
                    label.ids[r],
                ) {
                    product_at(label.paths, arm_keys(star), arm_keys(star).len() as int, r)
                } else {
                    degrees[r]
                },
        )
    } else {
        degrees
    }
}

/// A label when the degrees of some vertices in stars were computed anew.
pub open spec fn refreshed(label: LabelView, name: Seq<char>, hits: Hits) -> LabelView {
    LabelView {
        ids: label.ids,
        paths: label.paths,
        stars: Map::new(
            |star: StarView| label.stars.contains_key(star),
            |star: StarView| star_after(label, name, star, hits),
        ),
    }
}

/// The labels when the degrees of some vertices in stars were computed anew.
pub open spec fn labels_refreshed(labels: Map<Seq<char>, LabelView>, hits: Hits) -> Map<
    Seq<char>,
    LabelView,
> {
    Map::new(
        |name: Seq<char>| labels.contains_key(name),
        |name: Seq<char>| refreshed(labels[name], name, hits),
    )
}

/// Whether a degree in a star was computed anew.
pub open spec fn is_touched(labels: Map<Seq<char>, LabelView>, hits: Hits, star: StarView) -> bool {
    exists|name: Seq<char>, v: VertexId| #[trigger]
        hits(name, star, v) && labels.contains_key(name) && rank_in(labels[name].ids, v) is Some
            && has_arms(labels[name], star) && labels[name].stars.contains_key(star)
}

proof fn lemma_refreshed_twice(
    labels: Map<Seq<char>, LabelView>,
    first: Hits,
    second: Hits,
    both: Hits,
)
    requires
        forall|name: Seq<char>, star: StarView, v: VertexId| #[trigger]
            both(name, star, v) == (first(name, star, v) || second(name, star, v)),
    ensures
        labels_refreshed(labels_refreshed(labels, first), second) == labels_refreshed(labels, both),
        forall|star: StarView| #[trigger]
            is_touched(labels, both, star) == (is_touched(labels, first, star) || is_touched(
                labels_refreshed(labels, first),
                second,
                star,
            )),
{
    let middle = labels_refreshed(labels, first);
    let after = labels_refreshed(middle, second);
    let whole = labels_refreshed(labels, both);
    assert forall|name: Seq<char>| labels.contains_key(name) implies #[trigger] after[name]
        == whole[name] by {
        assert forall|star: StarView| labels[name].stars.contains_key(star) implies #[trigger]
            after[name].stars[star] == whole[name].stars[star] by {
            assert(has_arms(middle[name], star) == has_arms(labels[name], star));
            assert(after[name].stars[star] =~= whole[name].stars[star]);
        }
        assert(after[name].stars =~= whole[name].stars);
    }
    assert(after =~= whole);
    assert forall|star: StarView| #[trigger]
        is_touched(labels, both, star) == (is_touched(labels, first, star) || is_touched(
            middle,
            second,
            star,
        )) by {
        if is_touched(labels, both, star) {
            let (name, v) = choose|name: Seq<char>, v: VertexId| #[trigger]
                both(name, star, v) && labels.contains_key(name) && rank_in(
                    labels[name].ids,
                    v,
                ) is Some && has_arms(labels[name], star) && labels[name].stars.contains_key(star);
            if first(name, star, v) {
                assert(is_touched(labels, first, star));
            } else {
                assert(second(name, star, v));
                assert(has_arms(middle[name], star));
                assert(is_touched(middle, second, star));
            }
        }
        if is_touched(labels, first, star) {
            let (name, v) = choose|name: Seq<char>, v: VertexId| #[trigger]
                first(name, star, v) && labels.contains_key(name) && rank_in(
                    labels[name].ids,
                    v,
                ) is Some && has_arms(labels[name], star) && labels[name].stars.contains_key(star);
            assert(both(name, star, v));
        }
        if is_touched(middle, second, star) {
            let (name, v) = choose|name: Seq<char>, v: VertexId| #[trigger]
                second(name, star, v) && middle.contains_key(name) && rank_in(
                    middle[name].ids,
                    v,
                ) is Some && has_arms(middle[name], star) && middle[name].stars.contains_key(star);
            assert(both(name, star, v));
            assert(has_arms(labels[name], star));
        }
    }
}

proof fn lemma_no_hits(labels: Map<Seq<char>, LabelView>, hits: Hits)
    requires
        forall|name: Seq<char>, star: StarView, v: VertexId| !#[trigger] hits(name, star, v),
    ensures
        labels_refreshed(labels, hits) == labels,
        forall|star: StarView| !#[trigger] is_touched(labels, hits, star),
{
    let after = labels_refreshed(labels, hits);
    assert forall|name: Seq<char>| labels.contains_key(name) implies #[trigger] after[name]
        == labels[name] by {
        assert forall|star: StarView| labels[name].stars.contains_key(star) implies #[trigger]
            after[name].stars[star] == labels[name].stars[star] by {
            assert(after[name].stars[star] =~= labels[name].stars[star]);
        }
        assert(after[name].stars =~= labels[name].stars);
    }
    assert(after =~= labels);
}

/// The changed vertices, for one star around one center.
pub open spec fn hits_of(center: Seq<char>, star: StarView, changes: Seq<(VertexId, i64)>) -> Hits {
    |name: Seq<char>, s: StarView, v: VertexId|
        name == center && s == star && change_among(changes, v) != 0
}

impl LabelStatistic {
    /// Whether there are degrees along paths.
    fn has_all_paths(&self, keys: &Vec<AltKey>) -> (result: bool)
        ensures
            result == (forall|i: int|
                0 <= i < keys@.len() ==> self@.paths.contains_key(#[trigger] keys@[i]@)),
    {
        let mut i: usize = 0;
        while i < keys.len()
            invariant
                i <= keys@.len(),
                forall|j: int| 0 <= j < i ==> self@.paths.contains_key(#[trigger] keys@[j]@),
            decreases keys.len() - i,
        {
            if !self.path_statistic.contains_key(&keys[i]) {
                assert(!self@.paths.contains_key(keys@[i as int]@));
                return false;
            }
            i = i + 1;
        }
        true
    }

    /// The product of the degrees at a rank along paths.
    fn product_of(&self, keys: &Vec<AltKey>, Ghost(arms): Ghost<Seq<Seq<Seq<char>>>>, rank: usize) -> (result:
        u64)
        requires
            self.wf(),
            keys@.len() == arms.len(),
            forall|i: int| #![trigger keys@[i]] 0 <= i < keys@.len() ==> keys@[i]@ == arms[i],
            forall|i: int|
                0 <= i < keys@.len() ==> self@.paths.contains_key(#[trigger] keys@[i]@),
        ensures
            result == product_at(self@.paths, arms, arms.len() as int, rank as int),
    {
        let mut product: u64 = 1;
        let mut i: usize = 0;
        while i < keys.len()
            invariant
                self.wf(),
                keys@.len() == arms.len(),
                forall|i: int| #![trigger keys@[i]] 0 <= i < keys@.len() ==> keys@[i]@ == arms[i],
                forall|i: int|
                    0 <= i < keys@.len() ==> self@.paths.contains_key(#[trigger] keys@[i]@),
                i <= keys@.len(),
                product == product_at(self@.paths, arms, i as int, rank as int),
            decreases keys.len() - i,
        {
            assert(self@.paths.contains_key(keys@[i as int]@));
            let degree: u64 = match self.path_statistic.get(&keys[i]) {
                Some(block) => match block.recover_upper_bound_at_rank(rank) {
                    Some(degree) => degree,
                    None => 0,
                },
                None => 0,
            };
            product = saturating_product(product, degree);
            i = i + 1;
        }
        product
    }

    /// Computes the degrees of vertices in a star anew, and says whether there was anything to do.
    fn refresh_star(&mut self, star: &StarStatKey, deltas: &Deltas, Ghost(name): Ghost<Seq<char>>) -> (result:
        bool)
        requires
            old(self).wf(),
            has_paths_for_arms(star@),
            deltas.wf(),
        ensures
            final(self).wf(),
            final(self)@ == refreshed(old(self)@, name, hits_of(name, star@, deltas.entries@)),
            final(self).star_statistic.keys() == old(self).star_statistic.keys(),
            result == (has_arms(old(self)@, star@) && old(self)@.stars.contains_key(star@) && exists|
                v: VertexId,
            |
                #![trigger rank_in(old(self)@.ids, v)]
                change_among(deltas.entries@, v) != 0 && rank_in(old(self)@.ids, v) is Some),
    {
        let ghost start = *self;
        let ghost hits = hits_of(name, star@, deltas.entries@);
        let ghost arms = arm_keys(star@);
        let keys: Vec<AltKey> = keys_of_arms(star);
        if !self.has_all_paths(&keys) {
            proof {
                let i = choose|i: int|
                    0 <= i < keys@.len() && !self@.paths.contains_key(#[trigger] keys@[i]@);
                assert(!self@.paths.contains_key(arms[i]));
                lemma_not_refreshed(start@, name, star@, hits);
            }
            return false;
        }
        assert(has_arms(start@, star@)) by {
            assert forall|i: int| 0 <= i < arms.len() implies start@.paths.contains_key(
                #[trigger] arms[i],
            ) by {
                assert(start@.paths.contains_key(keys@[i]@));
            }
        }
        let place: usize = match self.star_statistic.position(star) {
            Some(place) => place,
            None => {
                proof {
                    lemma_not_refreshed(start@, name, star@, hits);
                }
                return false;
            },
        };
        let empty = BlockStatistic { degrees: Vec::new() };
        let mut block: BlockStatistic = self.star_statistic.exchange(place, empty);
        let ghost degrees = block@;
        let ghost entries = deltas.entries@;
        let ghost ids = start@.ids;
        let mut touched: bool = false;
        let mut i: usize = 0;
        while i < deltas.entries.len()
            invariant
                self.wf(),
                deltas.wf(),
                self@.paths == start@.paths,
                self@.ids == ids,
                ids == start@.ids,
                entries == deltas.entries@,
                keys@.len() == arms.len(),
                forall|j: int| #![trigger keys@[j]] 0 <= j < keys@.len() ==> keys@[j]@ == arms[j],
                forall|j: int|
                    0 <= j < keys@.len() ==> self@.paths.contains_key(#[trigger] keys@[j]@),
                i <= entries.len(),
                block@.len() == degrees.len(),
                forall|r: int|
                    #![trigger block@[r]]
                    0 <= r < degrees.len() ==> block@[r] == (if r < ids.len() && rank_in(
                        ids,
                        ids[r],
                    ) == Some(r) && change_among(entries.take(i as int), ids[r]) != 0 {
                        product_at(start@.paths, arms, arms.len() as int, r)
                    } else {
                        degrees[r]
                    }),
                touched == (exists|v: VertexId|
                    #![trigger rank_in(ids, v)]
                    change_among(entries.take(i as int), v) != 0 && rank_in(ids, v) is Some),
            decreases deltas.entries.len() - i,
        {
            let (v, delta) = deltas.entries[i];
            let ghost shorter = entries.take(i as int);
            let ghost longer = entries.take(i + 1);
            let ghost before = block@;
            proof {
                assert(longer.drop_last() =~= shorter);
                assert(longer.last() == entries[i as int]);
                lemma_rank(ids, v);
            }
            let ghost was = touched;
            match self.rank_of(v) {
                Some(rank) => {
                    let product: u64 = self.product_of(&keys, Ghost(arms), rank);
                    block.put(rank, product);
                    touched = true;
                    assert(change_among(longer, v) != 0 && rank_in(ids, v) is Some);
                },
                None => {
                    proof {
                        if was {
                            let w = choose|w: VertexId|
                                #![trigger rank_in(ids, w)]
                                change_among(shorter, w) != 0 && rank_in(ids, w) is Some;
                            assert(change_among(longer, w) != 0 && rank_in(ids, w) is Some);
                        }
                    }
                },
            }
            assert forall|r: int|
                #![trigger block@[r]]
                0 <= r < degrees.len() implies block@[r] == (if r < ids.len() && rank_in(
                ids,
                ids[r],
            ) == Some(r) && change_among(longer, ids[r]) != 0 {
                product_at(start@.paths, arms, arms.len() as int, r)
            } else {
                degrees[r]
            }) by {
                assert(before[r] == before[r]);
                if r < ids.len() {
                    lemma_rank(ids, ids[r]);
                }
            }
            i = i + 1;
        }
        assert(entries.take(i as int) =~= entries);
        self.star_statistic.replace(place, block);
        proof {
            assert(self.star_statistic@ =~= start.star_statistic@.insert(star@, block));
            let goal = refreshed(start@, name, hits);
            assert forall|s: StarView| goal.stars.contains_key(s) implies #[trigger] self@.stars[s]
                == goal.stars[s] by {
                if s == star@ {
                    assert(self@.stars[s] =~= goal.stars[s]);
                } else {
                    assert(goal.stars[s] =~= start@.stars[s]);
                }
            }
            assert(self@.stars =~= goal.stars);
        }
        touched
    }
}

proof fn lemma_not_refreshed(label: LabelView, name: Seq<char>, star: StarView, hits: Hits)
    requires
        forall|s: StarView, v: VertexId| #[trigger] hits(name, s, v) ==> s == star,
        !(has_arms(label, star) && label.stars.contains_key(star)),
    ensures
        refreshed(label, name, hits) == label,
{
    let after = refreshed(label, name, hits);
    assert forall|s: StarView| label.stars.contains_key(s) implies #[trigger] after.stars[s]
        == label.stars[s] by {
        assert(after.stars[s] =~= label.stars[s]);
    }
    assert(after.stars =~= label.stars);
}

impl Statistic {
    /// Computes the degrees of vertices in a star around a center anew.
    fn refresh_star_at(&mut self, center: &String, star: &StarStatKey, deltas: &Deltas) -> (result:
        bool)
        requires
            old(self).wf(),
            has_paths_for_arms(star@),
            deltas.wf(),
        ensures
            final(self).wf(),
            final(self).arm_to_star_keys == old(self).arm_to_star_keys,
            old(self).index_is_complete() ==> final(self).index_is_complete(),
            final(self).labels() == labels_refreshed(
                old(self).labels(),
                hits_of(center@, star@, deltas.entries@),
            ),
            result == is_touched(
                old(self).labels(),
                hits_of(center@, star@, deltas.entries@),
                star@,
            ),
    {
        let ghost start = *self;
        let ghost hits = hits_of(center@, star@, deltas.entries@);
        let i: usize = match self.label_path_statistic.position(center) {
            Some(i) => i,
            None => {
                proof {
                    lemma_refreshed_elsewhere(start.labels(), center@, hits);
                }
                return false;
            },
        };
        let mut known: LabelStatistic = self.label_path_statistic.exchange(
            i,
            LabelStatistic::new(),
        );
        let ghost before = known;
        let touched: bool = known.refresh_star(star, deltas, Ghost(center@));
        self.label_path_statistic.replace(i, known);
        proof {
            assert(known@.stars.dom() =~= before@.stars.dom());
            lemma_proper_stars_kept(before.star_statistic, known.star_statistic);
            assert(self.label_path_statistic@ =~= start.label_path_statistic@.insert(
                center@,
                known,
            ));
            lemma_label_replaced(start, *self, i as int, known);
            lemma_refreshed_at(start.labels(), center@, hits);
            if touched {
                let v = choose|v: VertexId|
                    #![trigger rank_in(before@.ids, v)]
                    change_among(deltas.entries@, v) != 0 && rank_in(before@.ids, v) is Some;
                assert(hits(center@, star@, v));
            }
            if is_touched(start.labels(), hits, star@) {
                let (name, v) = choose|name: Seq<char>, v: VertexId| #[trigger]
                    hits(name, star@, v) && start.labels().contains_key(name) && rank_in(
                        start.labels()[name].ids,
                        v,
                    ) is Some && has_arms(start.labels()[name], star@)
                        && start.labels()[name].stars.contains_key(star@);
                assert(rank_in(before@.ids, v) is Some);
            }
        }
        touched
    }
}

proof fn lemma_refreshed_elsewhere(labels: Map<Seq<char>, LabelView>, center: Seq<char>, hits: Hits)
    requires
        !labels.contains_key(center),
        forall|name: Seq<char>, s: StarView, v: VertexId| #[trigger]
            hits(name, s, v) ==> name == center,
    ensures
        labels_refreshed(labels, hits) == labels,
        forall|star: StarView| !#[trigger] is_touched(labels, hits, star),
{
    let after = labels_refreshed(labels, hits);
    assert forall|name: Seq<char>| labels.contains_key(name) implies #[trigger] after[name]
        == labels[name] by {
        lemma_same_label(labels[name], name, hits);
    }
    assert(after =~= labels);
}

proof fn lemma_same_label(label: LabelView, name: Seq<char>, hits: Hits)
    requires
        forall|s: StarView, v: VertexId| !#[trigger] hits(name, s, v),
    ensures
        refreshed(label, name, hits) == label,
{
    let after = refreshed(label, name, hits);
    assert forall|s: StarView| label.stars.contains_key(s) implies #[trigger] after.stars[s]
        == label.stars[s] by {
        assert(after.stars[s] =~= label.stars[s]);
    }
    assert(after.stars =~= label.stars);
}

proof fn lemma_refreshed_at(labels: Map<Seq<char>, LabelView>, center: Seq<char>, hits: Hits)
    requires
        labels.contains_key(center),
        forall|name: Seq<char>, s: StarView, v: VertexId| #[trigger]
            hits(name, s, v) ==> name == center,
    ensures
        labels_refreshed(labels, hits) == labels.insert(
            center,
            refreshed(labels[center], center, hits),
        ),
{
    let after = labels_refreshed(labels, hits);
    assert forall|name: Seq<char>| labels.contains_key(name) && name != center implies #[trigger]
        after[name] == labels[name] by {
        lemma_same_label(labels[name], name, hits);
    }
    assert(after =~= labels.insert(center, refreshed(labels[center], center, hits)));
}

/// The changed vertices, for the first stars around one center.
pub open spec fn hits_of_stars(
    center: Seq<char>,
    stars: Seq<StarStatKey>,
    n: int,
    changes: Seq<(VertexId, i64)>,
) -> Hits {
    |name: Seq<char>, s: StarView, v: VertexId|
        name == center && lists_star(stars.take(n), s) && change_among(changes, v) != 0
}

/// The changed vertices, for the stars that the first changed arms belong to.
pub open spec fn hits_of_arms(
    arms: Table<PathKey, Vec<StarStatKey>>,
    dirty: Seq<(PathKey, Deltas)>,
    n: int,
) -> Hits {
    |name: Seq<char>, s: StarView, v: VertexId|
        exists|i: int|
            0 <= i < n && (#[trigger] dirty[i]).0@.0 == name && is_noted(
                arms,
                name,
                dirty[i].0@.1,
                s,
            ) && dirty[i].1.at(v) != 0
}

/// Whether no star is listed twice.
pub open spec fn stars_are_distinct(stars: Seq<StarStatKey>) -> bool {
    forall|i: int, j: int|
        #![trigger stars[i], stars[j]]
        0 <= i < j < stars.len() ==> stars[i]@ != stars[j]@
}

fn add_star(stars: &mut Vec<StarStatKey>, star: &StarStatKey)
    requires
        stars_are_distinct(old(stars)@),
    ensures
        stars_are_distinct(final(stars)@),
        forall|s: StarView| #[trigger]
            lists_star(final(stars)@, s) == (lists_star(old(stars)@, s) || s == star@),
{
    let ghost before = stars@;
    let mut i: usize = 0;
    while i < stars.len()
        invariant
            stars@ == before,
            stars_are_distinct(before),
            i <= stars@.len(),
            forall|j: int| 0 <= j < i ==> (#[trigger] stars@[j])@ != star@,
        decreases stars.len() - i,
    {
        if stars[i].same_as(star) {
            assert(lists_star(before, star@));
            return;
        }
        i = i + 1;
    }
    stars.push(star.copy());
    proof {
        assert(stars@.drop_last() =~= before);
        lemma_star_added(before, stars@, star@);
        assert forall|a: int, b: int|
            #![trigger stars@[a], stars@[b]]
            0 <= a < b < stars@.len() implies stars@[a]@ != stars@[b]@ by {
            if b < before.len() {
                assert(before[a]@ != before[b]@);
            } else {
                assert(before[a]@ != star@);
            }
        }
    }
}

proof fn lemma_hits_grow(
    center: Seq<char>,
    stars: Seq<StarStatKey>,
    n: int,
    changes: Seq<(VertexId, i64)>,
)
    requires
        0 <= n < stars.len(),
    ensures
        forall|name: Seq<char>, s: StarView, v: VertexId| #[trigger]
            hits_of_stars(center, stars, n + 1, changes)(name, s, v) == (hits_of_stars(
                center,
                stars,
                n,
                changes,
            )(name, s, v) || hits_of(center, stars[n]@, changes)(name, s, v)),
{
    let longer = stars.take(n + 1);
    assert(longer.drop_last() =~= stars.take(n));
    lemma_star_added(stars.take(n), longer, stars[n]@);
    assert forall|name: Seq<char>, s: StarView, v: VertexId| #[trigger]
        hits_of_stars(center, stars, n + 1, changes)(name, s, v) == (hits_of_stars(
            center,
            stars,
            n,
            changes,
        )(name, s, v) || hits_of(center, stars[n]@, changes)(name, s, v)) by {
        assert(lists_star(longer, s) == (lists_star(stars.take(n), s) || s == stars[n]@));
    }
}

proof fn lemma_touched_only(
    labels: Map<Seq<char>, LabelView>,
    center: Seq<char>,
    star: StarView,
    changes: Seq<(VertexId, i64)>,
)
    ensures
        forall|s: StarView| #[trigger]
            is_touched(labels, hits_of(center, star, changes), s) ==> s == star,
{
}

impl Statistic {
    /// Computes degrees in the stars anew that a changed arm belongs to.
    fn refresh_stars_of_arm(
        &mut self,
        key: &PathKey,
        deltas: &Deltas,
        dirty: &mut Vec<StarStatKey>,
    )
        requires
            old(self).wf(),
            deltas.wf(),
            stars_are_distinct(old(dirty)@),
        ensures
            final(self).wf(),
            final(self).arm_to_star_keys == old(self).arm_to_star_keys,
            old(self).index_is_complete() ==> final(self).index_is_complete(),
            stars_are_distinct(final(dirty)@),
            ({
                let hits = |name: Seq<char>, s: StarView, v: VertexId|
                    name == key@.0 && is_noted(old(self).arm_to_star_keys, key@.0, key@.1, s)
                        && deltas.at(v) != 0;
                &&& final(self).labels() == labels_refreshed(old(self).labels(), hits)
                &&& forall|s: StarView| #[trigger]
                    lists_star(final(dirty)@, s) == (lists_star(old(dirty)@, s) || is_touched(
                        old(self).labels(),
                        hits,
                        s,
                    ))
            }),
    {
        let ghost start = *self;
        let ghost center = key@.0;
        let ghost goal: Hits = |name: Seq<char>, s: StarView, v: VertexId|
            name == key@.0 && is_noted(start.arm_to_star_keys, key@.0, key@.1, s) && deltas.at(v)
                != 0;
        let place: usize = match self.arm_to_star_keys.position(key) {
            Some(place) => place,
            None => {
                proof {
                    lemma_no_hits(start.labels(), goal);
                }
                return;
            },
        };
        let ghost stars = self.arm_to_star_keys.entries@[place as int].1@;
        let ghost changes = deltas.entries@;
        let ghost before = dirty@;
        let mut i: usize = 0;
        proof {
            let none = hits_of_stars(center, stars, 0, changes);
            assert forall|name: Seq<char>, s: StarView, v: VertexId| !#[trigger] none(
                name,
                s,
                v,
            ) by {
                assert(stars.take(0).len() == 0);
            }
            lemma_no_hits(start.labels(), none);
        }
        while i < self.arm_to_star_keys.entries[place].1.len()
            invariant
                self.wf(),
                self.arm_to_star_keys == start.arm_to_star_keys,
                start.index_is_complete() ==> self.index_is_complete(),
                place < self.arm_to_star_keys.entries@.len(),
                stars == self.arm_to_star_keys.entries@[place as int].1@,
                center == key@.0,
                key@.0 == key.label@,
                changes == deltas.entries@,
                deltas.wf(),
                i <= stars.len(),
                self.labels() == labels_refreshed(
                    start.labels(),
                    hits_of_stars(center, stars, i as int, changes),
                ),
                stars_are_distinct(dirty@),
                forall|s: StarView| #[trigger]
                    lists_star(dirty@, s) == (lists_star(before, s) || is_touched(
                        start.labels(),
                        hits_of_stars(center, stars, i as int, changes),
                        s,
                    )),
            decreases stars.len() - i,
        {
            let ghost middle = self.labels();
            let ghost dirty_before = dirty@;
            assert(has_paths_for_arms(self.arm_to_star_keys.entries@[place as int].1@[i as int]@));
            let star: StarStatKey = self.arm_to_star_keys.entries[place].1[i].copy();
            let touched: bool = self.refresh_star_at(&key.label, &star, deltas);
            if touched {
                add_star(dirty, &star);
            }
            proof {
                lemma_hits_grow(center, stars, i as int, changes);
                lemma_refreshed_twice(
                    start.labels(),
                    hits_of_stars(center, stars, i as int, changes),
                    hits_of(center, stars[i as int]@, changes),
                    hits_of_stars(center, stars, i + 1, changes),
                );
                lemma_touched_only(middle, center, stars[i as int]@, changes);
                assert forall|s: StarView| #[trigger]
                    lists_star(dirty@, s) == (lists_star(before, s) || is_touched(
                        start.labels(),
                        hits_of_stars(center, stars, i + 1, changes),
                        s,
                    )) by {
                    assert(lists_star(dirty_before, s) == (lists_star(before, s) || is_touched(
                        start.labels(),
                        hits_of_stars(center, stars, i as int, changes),
                        s,
                    )));
                    assert(is_touched(
                        start.labels(),
                        hits_of_stars(center, stars, i + 1, changes),
                        s,
                    ) == (is_touched(
                        start.labels(),
                        hits_of_stars(center, stars, i as int, changes),
                        s,
                    ) || is_touched(middle, hits_of(center, stars[i as int]@, changes), s)));
                }
            }
            i = i + 1;
        }
        proof {
            let found = hits_of_stars(center, stars, i as int, changes);
            assert(stars.take(i as int) =~= stars);
            start.arm_to_star_keys.lemma_entry(place as int);
            assert forall|name: Seq<char>, s: StarView, v: VertexId| #[trigger]
                goal(name, s, v) == found(name, s, v) by {}
            assert(goal =~= found);
        }
    }

    /// Computes degrees in stars anew, for the vertices whose degrees along an arm have changed.
    /// The stars are given back of which a degree was computed.
    pub fn apply_star_updates_from_path_dirty(&mut self, path_dirty: &Table<PathKey, Deltas>) -> (result:
        Vec<StarStatKey>)
        requires
            old(self).wf(),
            forall|i: int|
                0 <= i < path_dirty.entries@.len() ==> (#[trigger] path_dirty.entries@[i]).1.wf(),
        ensures
            final(self).wf(),
            final(self).arm_to_star_keys == old(self).arm_to_star_keys,
            old(self).index_is_complete() ==> final(self).index_is_complete(),
            ({
                let hits = hits_of_arms(
                    old(self).arm_to_star_keys,
                    path_dirty.entries@,
                    path_dirty.entries@.len() as int,
                );
                &&& final(self).labels() == labels_refreshed(old(self).labels(), hits)
                &&& stars_are_distinct(result@)
                &&& forall|s: StarView| #[trigger]
                    lists_star(result@, s) == is_touched(old(self).labels(), hits, s)
            }),
    {
        let ghost start = *self;
        let ghost arms = start.arm_to_star_keys;
        let ghost entries = path_dirty.entries@;
        let mut dirty: Vec<StarStatKey> = Vec::new();
        let mut i: usize = 0;
        proof {
            let none = hits_of_arms(arms, entries, 0);
            lemma_no_hits(start.labels(), none);
        }
        while i < path_dirty.entries.len()
            invariant
                entries == path_dirty.entries@,
                forall|j: int| 0 <= j < entries.len() ==> (#[trigger] entries[j]).1.wf(),
                self.wf(),
                self.arm_to_star_keys == arms,
                start.index_is_complete() ==> self.index_is_complete(),
                i <= entries.len(),
                self.labels() == labels_refreshed(
                    start.labels(),
                    hits_of_arms(arms, entries, i as int),
                ),
                stars_are_distinct(dirty@),
                forall|s: StarView| #[trigger]
                    lists_star(dirty@, s) == is_touched(
                        start.labels(),
                        hits_of_arms(arms, entries, i as int),
                        s,
                    ),
            decreases entries.len() - i,
        {
            let ghost middle = *self;
            let ghost dirty_before = dirty@;
            assert(entries[i as int].1.wf());
            self.refresh_stars_of_arm(
                &path_dirty.entries[i].0,
                &path_dirty.entries[i].1,
                &mut dirty,
            );
            proof {
                let key = entries[i as int].0@;
                let deltas = entries[i as int].1;
                let one: Hits = |name: Seq<char>, s: StarView, v: VertexId|
                    name == key.0 && is_noted(middle.arm_to_star_keys, key.0, key.1, s)
                        && deltas.at(v) != 0;
                let shorter = hits_of_arms(arms, entries, i as int);
                let longer = hits_of_arms(arms, entries, i + 1);
                assert forall|name: Seq<char>, s: StarView, v: VertexId| #[trigger]
                    longer(name, s, v) == (shorter(name, s, v) || one(name, s, v)) by {
                    if longer(name, s, v) {
                        let x = choose|x: int|
                            0 <= x < i + 1 && (#[trigger] entries[x]).0@.0 == name && is_noted(
                                arms,
                                name,
                                entries[x].0@.1,
                                s,
                            ) && entries[x].1.at(v) != 0;
                        if x < i {
                            assert(shorter(name, s, v));
                        }
                    }
                    if shorter(name, s, v) {
                        let x = choose|x: int|
                            0 <= x < i && (#[trigger] entries[x]).0@.0 == name && is_noted(
                                arms,
                                name,
                                entries[x].0@.1,
                                s,
                            ) && entries[x].1.at(v) != 0;
                        assert(longer(name, s, v));
                    }
                    if one(name, s, v) {
                        assert(entries[i as int].0@.0 == name);
                        assert(longer(name, s, v));
                    }
                }
                lemma_refreshed_twice(start.labels(), shorter, one, longer);
                assert forall|s: StarView| #[trigger]
                    lists_star(dirty@, s) == is_touched(start.labels(), longer, s) by {
                    assert(lists_star(dirty_before, s) == is_touched(start.labels(), shorter, s));
                    assert(lists_star(dirty@, s) == (lists_star(dirty_before, s) || is_touched(
                        middle.labels(),
                        one,
                        s,
                    )));
                }
            }
            i = i + 1;
        }
        dirty
    }
}

/// A degree in a star that was computed anew is the product of the degrees along its arms.
pub proof fn touched_degrees_are_products(
    labels: Map<Seq<char>, LabelView>,
    hits: Hits,
    name: Seq<char>,
    star: StarView,
    v: VertexId,
)
    requires
        labels.contains_key(name),
        labels[name].stars.contains_key(star),
        has_arms(labels[name], star),
        hits(name, star, v),
        rank_in(labels[name].ids, v) matches Some(r) && r < labels[name].stars[star].len(),
    ensures
        ({
            let r = rank_in(labels[name].ids, v)->0;
            let after = labels_refreshed(labels, hits)[name];
            &&& after.paths == labels[name].paths
            &&& after.stars[star][r] == product_at(
                after.paths,
                arm_keys(star),
                arm_keys(star).len() as int,
                r,
            )
        }),
{
    lemma_rank(labels[name].ids, v);
}

/// The product of the degrees at a rank along the first `n` arms.
pub open spec fn full_product(
    paths: Map<Seq<Seq<char>>, Seq<u64>>,
    arms: Seq<Seq<Seq<char>>>,
    n: int,
    rank: int,
) -> nat
    decreases n,
{
    if n <= 0 {
        1
    } else {
        full_product(paths, arms, n - 1, rank) * (paths[arms[n - 1]][rank] as nat)
    }
}

/// The degree in a star that is computed from the degrees along its arms is their product, or the
/// greatest degree that there is where that is less.
pub proof fn products_are_full_or_greatest(
    paths: Map<Seq<Seq<char>>, Seq<u64>>,
    arms: Seq<Seq<Seq<char>>>,
    n: int,
    rank: int,
)
    requires
        0 <= n <= arms.len(),
        forall|i: int|
            #![trigger arms[i]]
            0 <= i < n ==> paths.contains_key(arms[i]) && 0 <= rank < paths[arms[i]].len(),
    ensures
        is_degree(product_at(paths, arms, n, rank), full_product(paths, arms, n, rank)),
    decreases n,
{
    if n > 0 {
        products_are_full_or_greatest(paths, arms, n - 1, rank);
        let arm = arms[n - 1];
        let before = full_product(paths, arms, n - 1, rank);
        let d = paths[arm][rank];
        lemma_product(before as int, d as int);
        assert(before * (d as nat) >= 0) by (nonlinear_arith);
    }
}

} // verus!
