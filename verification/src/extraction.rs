//! Taking stars of the catalog out of a decomposition, and out of a query.
use crate::abstraction::{
    abstract_views, edge_labels, vertex_labels, AbstractEdge, AbstractView,
};
use crate::catalog::DegreeSeqGraph;
use crate::matching::{
    best, find_matching_star, is_best, is_selection, selected, star_of,
};
use crate::order::{placed, sort, sorted, Ordered};
use crate::paths::degree;
use crate::pattern::{
    path_relation_flips, path_relation_same, path_relation_transitive, pattern_views, PathPattern,
    PathView, StarStatKey, StarView,
};
use crate::query::{EdgeId, GraphView, QueryGraph, VertexId};
use crate::text::{label_views, reversed_labels, Relation};
use vstd::prelude::*;
use vstd::string::*;

verus! {

/// An arm at a center, with a tag by which it is found again.
#[derive(Debug, Clone)]
pub struct TaggedArm {
    pub tag: u64,
    pub pattern: PathPattern,
}

/// What a tagged arm says.
#[verifier::ext_equal]
pub struct TaggedView {
    pub tag: u64,
    pub pattern: PathView,
}

impl View for TaggedArm {
    type V = TaggedView;

    open spec fn view(&self) -> TaggedView {
        TaggedView { tag: self.tag, pattern: self.pattern@ }
    }
}

/// What tagged arms say.
pub open spec fn tagged_views(arms: Seq<TaggedArm>) -> Seq<TaggedView> {
    arms.map_values(|a: TaggedArm| a@)
}

/// The patterns of arms.
pub open spec fn patterns_of(arms: Seq<TaggedView>) -> Seq<PathView> {
    arms.map_values(|a: TaggedView| a.pattern)
}

impl Ordered for TaggedArm {
    open spec fn at_or_before(self, other: TaggedArm) -> bool {
        self@.pattern.relation(other@.pattern) != Relation::After
    }

    proof fn order_is_total(a: TaggedArm, b: TaggedArm) {
        path_relation_flips(a@.pattern, b@.pattern);
    }

    proof fn order_is_transitive(a: TaggedArm, b: TaggedArm, c: TaggedArm) {
        path_relation_same(a@.pattern, b@.pattern);
        path_relation_same(b@.pattern, c@.pattern);
        if a@.pattern != b@.pattern && b@.pattern != c@.pattern {
            path_relation_transitive(a@.pattern, b@.pattern, c@.pattern);
        }
    }

    fn may_precede(&self, other: &TaggedArm) -> (result: bool) {
        self.pattern.may_precede(&other.pattern)
    }
}

/// Arms in the order of their patterns with one more, behind all that may precede it.
pub open spec fn tag_placed(arms: Seq<TaggedView>, arm: TaggedView) -> Seq<TaggedView>
    decreases arms.len(),
{
    if arms.len() == 0 || arms.last().pattern.relation(arm.pattern) != Relation::After {
        arms.push(arm)
    } else {
        tag_placed(arms.drop_last(), arm).push(arms.last())
    }
}

/// Arms in the order of their patterns.
pub open spec fn tags_sorted(arms: Seq<TaggedView>) -> Seq<TaggedView>
    decreases arms.len(),
{
    if arms.len() == 0 {
        arms
    } else {
        tag_placed(tags_sorted(arms.drop_last()), arms.last())
    }
}

proof fn lemma_placed_tags(arms: Seq<TaggedArm>, x: TaggedArm)
    ensures
        tagged_views(placed(arms, x)) == tag_placed(tagged_views(arms), x@),
    decreases arms.len(),
{
    if arms.len() == 0 || arms.last().at_or_before(x) {
        assert(tagged_views(arms.push(x)) =~= tagged_views(arms).push(x@));
    } else {
        let head = arms.drop_last();
        lemma_placed_tags(head, x);
        assert(tagged_views(head) =~= tagged_views(arms).drop_last());
        assert(tagged_views(placed(head, x).push(arms.last())) =~= tagged_views(
            placed(head, x),
        ).push(arms.last()@));
    }
}

pub proof fn lemma_sorted_tags(arms: Seq<TaggedArm>)
    ensures
        tagged_views(sorted(arms)) == tags_sorted(tagged_views(arms)),
    decreases arms.len(),
{
    if arms.len() == 0 {
        assert(tagged_views(arms) =~= Seq::empty());
        assert(tagged_views(sorted(arms)) =~= Seq::empty());
    } else {
        let head = arms.drop_last();
        lemma_sorted_tags(head);
        lemma_placed_tags(sorted(head), arms.last());
        assert(tagged_views(head) =~= tagged_views(arms).drop_last());
    }
}

/// The positions of the first `n` arms from which a star may be made: all of them, or where no
/// pattern is to occur twice, the first one of each run of equal patterns.
pub open spec fn offered(patterns: Seq<PathView>, distinct: bool, n: int) -> Seq<usize>
    decreases n,
{
    if n <= 0 {
        Seq::empty()
    } else {
        let before = offered(patterns, distinct, n - 1);
        if distinct && n >= 2 && patterns[n - 1] == patterns[n - 2] {
            before
        } else {
            before.push((n - 1) as usize)
        }
    }
}

proof fn lemma_offered(patterns: Seq<PathView>, distinct: bool, n: int)
    requires
        0 <= n <= patterns.len() <= usize::MAX,
    ensures
        is_selection(
            offered(patterns, distinct, n),
            n as nat,
            offered(patterns, distinct, n).len(),
        ),
    decreases n,
{
    if n > 0 {
        lemma_offered(patterns, distinct, n - 1);
        let before = offered(patterns, distinct, n - 1);
        let all = offered(patterns, distinct, n);
        assert forall|i: int, j: int| #![trigger all[i], all[j]] 0 <= i < j < all.len() implies all[i]
            < all[j] by {
            if j < before.len() {
                assert(before[i] < before[j]);
            } else {
                assert(before[i] < n - 1);
            }
        }
        assert forall|i: int| 0 <= i < all.len() implies #[trigger] all[i] < n by {
            if i < before.len() {
                assert(before[i] < n - 1);
            }
        }
    }
}

/// The positions of the arms that make the star to take at a center.
pub open spec fn taken(
    catalog: DegreeSeqGraph,
    center: Seq<char>,
    arms: Seq<TaggedView>,
    max: nat,
    distinct: bool,
) -> Option<Seq<usize>> {
    let patterns = patterns_of(arms);
    let offer = offered(patterns, distinct, patterns.len() as int);
    match best(catalog, center, selected(patterns, offer), max) {
        Some(places) => Some(Seq::new(places.len(), |i: int| offer[places[i] as int])),
        None => None,
    }
}

/// The arms without those at some ascending positions.
pub open spec fn removed(arms: Seq<TaggedView>, places: Seq<usize>) -> Seq<TaggedView>
    decreases places.len(),
{
    if places.len() == 0 {
        arms
    } else {
        removed(arms.remove(places.last() as int), places.drop_last())
    }
}

pub proof fn lemma_removed_len(arms: Seq<TaggedView>, places: Seq<usize>)
    requires
        is_selection(places, arms.len(), places.len()),
    ensures
        removed(arms, places).len() == arms.len() - places.len(),
    decreases places.len(),
{
    if places.len() > 0 {
        let fewer = arms.remove(places.last() as int);
        let rest = places.drop_last();
        assert forall|i: int| 0 <= i < rest.len() implies #[trigger] rest[i] < fewer.len() by {
            assert(places[i] < places[places.len() - 1]);
        }
        assert forall|i: int, j: int|
            #![trigger rest[i], rest[j]]
            0 <= i < j < rest.len() implies rest[i] < rest[j] by {
            assert(places[i] < places[j]);
        }
        lemma_removed_len(fewer, rest);
    }
}

/// The tags of the arms at some positions.
pub open spec fn tags_at(arms: Seq<TaggedView>, places: Seq<usize>) -> Seq<u64> {
    Seq::new(places.len(), |i: int| arms[places[i] as int].tag)
}

/// What was taken is a selection of at least two of the arms, each one of those offered.
pub proof fn taken_is_a_selection(
    catalog: DegreeSeqGraph,
    center: Seq<char>,
    arms: Seq<TaggedView>,
    max: nat,
    distinct: bool,
)
    requires
        arms.len() <= usize::MAX,
    ensures
        taken(catalog, center, arms, max, distinct) matches Some(places) ==> is_selection(
            places,
            arms.len(),
            places.len(),
        ) && 2 <= places.len() <= max,
{
    let patterns = patterns_of(arms);
    let offer = offered(patterns, distinct, patterns.len() as int);
    let offers = selected(patterns, offer);
    lemma_offered(patterns, distinct, patterns.len() as int);
    if let Some(places) = best(catalog, center, offers, max) {
        assert(is_best(catalog, center, offers, max, places));
        let found = Seq::new(places.len(), |i: int| offer[places[i] as int]);
        assert forall|i: int| 0 <= i < found.len() implies #[trigger] found[i] < arms.len() by {
            assert(places[i] < offers.len());
        }
        assert forall|i: int, j: int|
            #![trigger found[i], found[j]]
            0 <= i < j < found.len() implies found[i] < found[j] by {
            assert(places[i] < places[j]);
            assert(places[j] < offers.len());
            assert(offer[places[i] as int] < offer[places[j] as int]);
        }
    }
}

fn copy_patterns(arms: &Vec<TaggedArm>, places: &Vec<usize>) -> (result: Vec<PathPattern>)
    requires
        forall|i: int| 0 <= i < places@.len() ==> #[trigger] places@[i] < arms@.len(),
    ensures
        pattern_views(result@) == selected(patterns_of(tagged_views(arms@)), places@),
{
    let mut result: Vec<PathPattern> = Vec::new();
    let mut i: usize = 0;
    while i < places.len()
        invariant
            forall|j: int| 0 <= j < places@.len() ==> #[trigger] places@[j] < arms@.len(),
            i <= places@.len(),
            result@.len() == i,
            forall|j: int|
                #![trigger result@[j]]
                0 <= j < i ==> result@[j]@ == arms@[places@[j] as int]@.pattern,
        decreases places.len() - i,
    {
        result.push(arms[places[i]].pattern.copy());
        i = i + 1;
    }
    assert(pattern_views(result@) =~= selected(patterns_of(tagged_views(arms@)), places@));
    result
}

/// The positions of the arms that make the star to take at a center.
pub fn take_star(
    center_label: &str,
    arms: &Vec<TaggedArm>,
    max_star_degree: usize,
    distinct: bool,
    catalog: &DegreeSeqGraph,
) -> (result: Option<Vec<usize>>)
    ensures
        match result {
            Some(places) => taken(
                *catalog,
                center_label@,
                tagged_views(arms@),
                max_star_degree as nat,
                distinct,
            ) == Some(places@),
            None => taken(
                *catalog,
                center_label@,
                tagged_views(arms@),
                max_star_degree as nat,
                distinct,
            ) is None,
        },
{
    let ghost views = tagged_views(arms@);
    let ghost patterns = patterns_of(views);
    let mut offer: Vec<usize> = Vec::new();
    let mut i: usize = 0;
    while i < arms.len()
        invariant
            views == tagged_views(arms@),
            patterns == patterns_of(views),
            i <= arms@.len(),
            offer@ == offered(patterns, distinct, i as int),
        decreases arms.len() - i,
    {
        assert(patterns[i as int] == arms@[i as int].pattern@);
        if distinct && i > 0 {
            assert(patterns[i - 1] == arms@[i - 1].pattern@);
            if !arms[i].pattern.same_as(&arms[i - 1].pattern) {
                offer.push(i);
            }
        } else {
            offer.push(i);
        }
        i = i + 1;
    }
    proof {
        assert(arms.len() == arms@.len());
        lemma_offered(patterns, distinct, patterns.len() as int);
    }
    let offers: Vec<PathPattern> = copy_patterns(arms, &offer);
    match find_matching_star(center_label, &offers, max_star_degree, catalog) {
        None => None,
        Some(places) => {
            let mut found: Vec<usize> = Vec::new();
            let mut j: usize = 0;
            assert(pattern_views(offers@).len() == offers@.len());
            while j < places.len()
                invariant
                    forall|m: int|
                        0 <= m < places@.len() ==> #[trigger] places@[m] < offer@.len(),
                    j <= places@.len(),
                    found@.len() == j,
                    forall|m: int|
                        #![trigger found@[m]]
                        0 <= m < j ==> found@[m] == offer@[places@[m] as int],
                decreases places.len() - j,
            {
                found.push(offer[places[j]]);
                j = j + 1;
            }
            assert(found@ =~= Seq::new(places@.len(), |m: int| offer@[places@[m] as int]));
            Some(found)
        },
    }
}

/// Takes the arms at ascending positions out.
pub fn remove_arms(arms: &mut Vec<TaggedArm>, places: &Vec<usize>)
    requires
        is_selection(places@, old(arms)@.len(), places@.len()),
    ensures
        tagged_views(final(arms)@) == removed(tagged_views(old(arms)@), places@),
{
    let ghost begun = tagged_views(arms@);
    let mut n: usize = places.len();
    assert(places@.take(n as int) =~= places@);
    while n > 0
        invariant
            n <= places@.len(),
            is_selection(places@.take(n as int), arms@.len(), n as nat),
            removed(begun, places@) == removed(tagged_views(arms@), places@.take(n as int)),
        decreases n,
    {
        let ghost head = places@.take(n as int);
        let ghost before = arms@;
        n = n - 1;
        assert(head.last() == places@[n as int]);
        assert(head[n as int] < arms@.len());
        arms.remove(places[n]);
        proof {
            assert(head.drop_last() =~= places@.take(n as int));
            assert(tagged_views(arms@) =~= tagged_views(before).remove(head.last() as int));
            assert forall|i: int| 0 <= i < n implies #[trigger] places@.take(n as int)[i]
                < arms@.len() by {
                assert(head[i] < head[n as int]);
            }
            assert forall|i: int, j: int|
                #![trigger places@.take(n as int)[i], places@.take(n as int)[j]]
                0 <= i < j < n implies places@.take(n as int)[i] < places@.take(n as int)[j] by {
                assert(head[i] < head[j]);
            }
        }
    }
    assert(places@.take(0) =~= Seq::empty());
}

/// A star that was taken out: its center, and the tags of its arms.
#[derive(Debug, Clone)]
pub struct LocalFactor {
    pub center: VertexId,
    pub tags: Vec<u64>,
    pub star: StarStatKey,
}

/// What such a star is.
#[verifier::ext_equal]
pub struct FactorView {
    pub center: VertexId,
    pub tags: Seq<u64>,
    pub star: StarView,
}

impl View for LocalFactor {
    type V = FactorView;

    open spec fn view(&self) -> FactorView {
        FactorView { center: self.center, tags: self.tags@, star: self.star@ }
    }
}

/// What such stars are.
pub open spec fn factor_views(factors: Seq<LocalFactor>) -> Seq<FactorView> {
    factors.map_values(|f: LocalFactor| f@)
}

/// The star at some positions of arms.
pub open spec fn factor_at(
    center: VertexId,
    label: Seq<char>,
    arms: Seq<TaggedView>,
    places: Seq<usize>,
) -> FactorView {
    FactorView {
        center,
        tags: tags_at(arms, places),
        star: star_of(label, selected(patterns_of(arms), places)),
    }
}

/// Whether a tag is that of an arm of one of the stars.
pub open spec fn is_used(factors: Seq<FactorView>, tag: u64) -> bool {
    exists|i: int| 0 <= i < factors.len() && (#[trigger] factors[i]).tags.contains(tag)
}

/// The stars at a center: the one to take, then the one to take from what is left, and so on.
pub open spec fn stars_at(
    catalog: DegreeSeqGraph,
    center: VertexId,
    label: Seq<char>,
    arms: Seq<TaggedView>,
    max: nat,
) -> Seq<FactorView>
    decreases arms.len(),
{
    match taken(catalog, label, arms, max, true) {
        None => Seq::empty(),
        Some(places) => if removed(arms, places).len() < arms.len() {
            seq![factor_at(center, label, arms, places)] + stars_at(
                catalog,
                center,
                label,
                removed(arms, places),
                max,
            )
        } else {
            Seq::empty()
        },
    }
}

/// The star of some of the arms around a center.
pub fn make_factor(center: VertexId, label: &str, arms: &Vec<TaggedArm>, places: &Vec<usize>) -> (result:
    LocalFactor)
    requires
        forall|i: int| 0 <= i < places@.len() ==> #[trigger] places@[i] < arms@.len(),
    ensures
        result@ == factor_at(center, label@, tagged_views(arms@), places@),
{
    let patterns: Vec<PathPattern> = copy_patterns(arms, places);
    proof {
        crate::matching::lemma_sorted_views(patterns@);
    }
    let star = StarStatKey::new(label.to_owned(), patterns);
    let mut tags: Vec<u64> = Vec::new();
    let mut i: usize = 0;
    while i < places.len()
        invariant
            forall|j: int| 0 <= j < places@.len() ==> #[trigger] places@[j] < arms@.len(),
            i <= places@.len(),
            tags@.len() == i,
            forall|j: int|
                #![trigger tags@[j]]
                0 <= j < i ==> tags@[j] == arms@[places@[j] as int].tag,
        decreases places.len() - i,
    {
        tags.push(arms[places[i]].tag);
        i = i + 1;
    }
    proof {
        assert(tags@ =~= tags_at(tagged_views(arms@), places@));
        assert(star@ =~= star_of(
            label@,
            selected(patterns_of(tagged_views(arms@)), places@),
        ));
    }
    LocalFactor { center, tags, star }
}

fn take_stars(
    factors: &mut Vec<LocalFactor>,
    center: VertexId,
    label: &str,
    arms: Vec<TaggedArm>,
    max_star_degree: usize,
    catalog: &DegreeSeqGraph,
)
    ensures
        factor_views(final(factors)@) == factor_views(old(factors)@) + stars_at(
            *catalog,
            center,
            label@,
            tagged_views(arms@),
            max_star_degree as nat,
        ),
{
    let ghost begun = factor_views(factors@);
    let ghost all = stars_at(
        *catalog,
        center,
        label@,
        tagged_views(arms@),
        max_star_degree as nat,
    );
    let mut arms = arms;
    assert(factor_views(factors@) + all =~= begun + all);
    loop
        invariant
            begun + all == factor_views(factors@) + stars_at(
                *catalog,
                center,
                label@,
                tagged_views(arms@),
                max_star_degree as nat,
            ),
        ensures
            begun + all == factor_views(factors@),
        decreases arms@.len(),
    {
        let ghost views = tagged_views(arms@);
        proof {
            assert(arms.len() == arms@.len());
            taken_is_a_selection(*catalog, label@, views, max_star_degree as nat, true);
        }
        match take_star(label, &arms, max_star_degree, true, catalog) {
            None => {
                assert(factor_views(factors@) + Seq::empty() =~= factor_views(factors@));
                break;
            },
            Some(places) => {
                proof {
                    lemma_removed_len(views, places@);
                }
                let factor: LocalFactor = make_factor(center, label, &arms, &places);
                let ghost before = factors@;
                factors.push(factor);
                remove_arms(&mut arms, &places);
                proof {
                    let rest = stars_at(
                        *catalog,
                        center,
                        label@,
                        removed(views, places@),
                        max_star_degree as nat,
                    );
                    assert(factor_views(factors@) =~= factor_views(before).push(factor@));
                    assert(factor_views(before) + (seq![factor@] + rest) =~= factor_views(
                        factors@,
                    ) + rest);
                }
            },
        }
    }
}

/// The other end of an abstract edge.
pub open spec fn abstract_other_end(edge: AbstractView, center: VertexId) -> VertexId {
    if center == edge.src {
        edge.dst
    } else {
        edge.src
    }
}

/// The labels along an abstract edge, from a center at one of its ends; none where it does not
/// end there, or a part of it is not in the graph.
pub open spec fn arm_labels(graph: GraphView, edge: AbstractView, center: VertexId) -> Option<
    PathView,
> {
    let labels = PathView {
        vs: vertex_labels(graph, edge.path_vertices),
        es: edge_labels(graph, edge.original_edge_ids),
    };
    if labels.vs.len() != edge.path_vertices.len() || labels.es.len()
        != edge.original_edge_ids.len() {
        None
    } else if edge.dst == center {
        Some(labels.reversed())
    } else if edge.src == center {
        Some(labels)
    } else {
        None
    }
}

/// Whether an abstract edge is an arm at a center: it has no predicate, and its other end is a
/// leaf of the query.
pub open spec fn arm_of(graph: GraphView, edge: AbstractView, center: VertexId) -> Option<PathView> {
    if edge.predicates.len() == 0 && degree(graph.edges, abstract_other_end(edge, center)) == 1 {
        arm_labels(graph, edge, center)
    } else {
        None
    }
}

/// The arms at a center among the first `n` abstract edges, each with its position as tag. An
/// edge that starts and ends there counts twice.
pub open spec fn arms_at(
    graph: GraphView,
    edges: Seq<AbstractView>,
    center: VertexId,
    n: int,
) -> Seq<TaggedView>
    decreases n,
{
    if n <= 0 {
        Seq::empty()
    } else {
        let e = edges[n - 1];
        let before = arms_at(graph, edges, center, n - 1);
        match arm_of(graph, e, center) {
            None => before,
            Some(pattern) => {
                let arm = TaggedView { tag: (n - 1) as u64, pattern };
                let once = if e.src == center {
                    before.push(arm)
                } else {
                    before
                };
                if e.dst == center {
                    once.push(arm)
                } else {
                    once
                }
            },
        }
    }
}

/// The arms that are not yet used and not too long.
pub open spec fn unused(arms: Seq<TaggedView>, factors: Seq<FactorView>, max_len: nat) -> Seq<
    TaggedView,
>
    decreases arms.len(),
{
    if arms.len() == 0 {
        arms
    } else {
        let before = unused(arms.drop_last(), factors, max_len);
        if !is_used(factors, arms.last().tag) && arms.last().pattern.es.len() <= max_len {
            before.push(arms.last())
        } else {
            before
        }
    }
}

/// The ends of abstract edges, each once.
pub open spec fn ends_of(edges: Seq<AbstractView>) -> Seq<VertexId>
    decreases edges.len(),
{
    if edges.len() == 0 {
        Seq::empty()
    } else {
        once_more(
            once_more(ends_of(edges.drop_last()), edges.last().src),
            edges.last().dst,
        )
    }
}

/// Ids with one more, unless it is among them.
pub open spec fn once_more(ids: Seq<u64>, id: u64) -> Seq<u64> {
    if ids.contains(id) {
        ids
    } else {
        ids.push(id)
    }
}

/// The stars to take out of abstract edges at the given centers, one center after the other.
pub open spec fn stars_taken(
    graph: GraphView,
    catalog: DegreeSeqGraph,
    edges: Seq<AbstractView>,
    centers: Seq<VertexId>,
    max_degree: nat,
    max_len: nat,
) -> Seq<FactorView>
    decreases centers.len(),
{
    if centers.len() == 0 {
        Seq::empty()
    } else {
        let before = stars_taken(graph, catalog, edges, centers.drop_last(), max_degree, max_len);
        match graph.vertex(centers.last()) {
            None => before,
            Some(v) => before + stars_at(
                catalog,
                centers.last(),
                v.label,
                tags_sorted(
                    unused(
                        arms_at(graph, edges, centers.last(), edges.len() as int),
                        before,
                        max_len,
                    ),
                ),
                max_degree,
            ),
        }
    }
}

/// The abstract edges that are in none of the stars.
pub open spec fn edges_kept(edges: Seq<AbstractView>, factors: Seq<FactorView>, n: int) -> Seq<
    AbstractView,
>
    decreases n,
{
    if n <= 0 {
        Seq::empty()
    } else {
        let before = edges_kept(edges, factors, n - 1);
        if is_used(factors, (n - 1) as u64) {
            before
        } else {
            before.push(edges[n - 1])
        }
    }
}

/// Whether an arm with a tag was taken.
pub fn has_tag(factors: &Vec<LocalFactor>, tag: u64) -> (result: bool)
    ensures
        result == is_used(factor_views(factors@), tag),
{
    let ghost views = factor_views(factors@);
    let mut i: usize = 0;
    while i < factors.len()
        invariant
            views == factor_views(factors@),
            i <= factors@.len(),
            forall|j: int| 0 <= j < i ==> !(#[trigger] views[j]).tags.contains(tag),
        decreases factors.len() - i,
    {
        assert(views[i as int].tags == factors@[i as int].tags@);
        if crate::query::contains_id(&factors[i].tags, tag) {
            return true;
        }
        i = i + 1;
    }
    false
}

impl QueryGraph {
    /// The labels along an abstract edge, from a center at one of its ends.
    pub fn star_arm_for_edge(&self, edge: &AbstractEdge, center: VertexId) -> (result: Option<
        PathPattern,
    >)
        requires
            self@.wf(),
            edge.path_vertices@.len() == edge.original_edge_ids@.len() + 1,
        ensures
            match result {
                Some(pattern) => arm_labels(self@, edge@, center) == Some(pattern@),
                None => arm_labels(self@, edge@, center) is None,
            },
    {
        let vs: Vec<String> = self.labels_of_path(&edge.path_vertices);
        let es: Vec<String> = self.labels_of_path_edges(&edge.original_edge_ids);
        assert(label_views(vs@).len() == vs@.len());
        assert(label_views(es@).len() == es@.len());
        if vs.len() != edge.path_vertices.len() || es.len() != edge.original_edge_ids.len() {
            return None;
        }
        if edge.dst == center {
            let vs = reversed_labels(&vs);
            let es = reversed_labels(&es);
            Some(PathPattern::new_without_reverse(vs, es))
        } else if edge.src == center {
            Some(PathPattern::new_without_reverse(vs, es))
        } else {
            None
        }
    }

    fn labels_of_path(&self, ids: &Vec<VertexId>) -> (result: Vec<String>)
        requires
            self@.wf(),
        ensures
            label_views(result@) == vertex_labels(self@, ids@),
    {
        assert(ids@.subrange(0, ids@.len() as int) =~= ids@);
        self.labels_of_vertices(ids, 0, ids.len())
    }

    fn labels_of_path_edges(&self, ids: &Vec<EdgeId>) -> (result: Vec<String>)
        requires
            self@.wf(),
        ensures
            label_views(result@) == edge_labels(self@, ids@),
    {
        assert(ids@.subrange(0, ids@.len() as int) =~= ids@);
        self.labels_of_edges(ids, 0, ids.len())
    }

    fn find_arms_at(&self, edges: &Vec<AbstractEdge>, center: VertexId) -> (result: Vec<TaggedArm>)
        requires
            self@.wf(),
            forall|i: int|
                #![trigger edges@[i]]
                0 <= i < edges@.len() ==> edges@[i].path_vertices@.len()
                    == edges@[i].original_edge_ids@.len() + 1,
        ensures
            tagged_views(result@) == arms_at(
                self@,
                abstract_views(edges@),
                center,
                edges@.len() as int,
            ),
    {
        let ghost views = abstract_views(edges@);
        let mut result: Vec<TaggedArm> = Vec::new();
        let mut i: usize = 0;
        assert(tagged_views(result@) =~= Seq::empty());
        while i < edges.len()
            invariant
                self@.wf(),
                forall|j: int|
                    #![trigger edges@[j]]
                    0 <= j < edges@.len() ==> edges@[j].path_vertices@.len()
                        == edges@[j].original_edge_ids@.len() + 1,
                views == abstract_views(edges@),
                i <= edges@.len(),
                tagged_views(result@) == arms_at(self@, views, center, i as int),
            decreases edges.len() - i,
        {
            let e: &AbstractEdge = &edges[i];
            assert(views[i as int] == e@);
            assert(crate::query::predicate_views(e.predicates@).len() == e.predicates@.len());
            if e.predicates.len() == 0 {
                let other: VertexId = if center == e.src {
                    e.dst
                } else {
                    e.src
                };
                if self.get_degree(other) == 1 {
                    if let Some(pattern) = self.star_arm_for_edge(e, center) {
                        let tag: u64 = i as u64;
                        let ghost before = result@;
                        if e.src == center {
                            let arm = TaggedArm { tag, pattern: pattern.copy() };
                            result.push(arm);
                            assert(tagged_views(result@) =~= tagged_views(before).push(
                                TaggedView { tag, pattern: pattern@ },
                            ));
                        }
                        let ghost between = result@;
                        if e.dst == center {
                            let arm = TaggedArm { tag, pattern };
                            result.push(arm);
                            assert(tagged_views(result@) =~= tagged_views(between).push(
                                TaggedView { tag, pattern: pattern@ },
                            ));
                        }
                    }
                }
            }
            i = i + 1;
        }
        result
    }
}

/// The arms that are not too long and were not taken.
pub fn keep_unused(arms: Vec<TaggedArm>, factors: &Vec<LocalFactor>, max_len: usize) -> (result: Vec<
    TaggedArm,
>)
    ensures
        tagged_views(result@) == unused(
            tagged_views(arms@),
            factor_views(factors@),
            max_len as nat,
        ),
{
    let ghost all = tagged_views(arms@);
    let ghost used = factor_views(factors@);
    let mut result: Vec<TaggedArm> = Vec::new();
    let mut i: usize = 0;
    assert(all.take(0) =~= Seq::empty());
    assert(tagged_views(result@) =~= Seq::empty());
    while i < arms.len()
        invariant
            all == tagged_views(arms@),
            used == factor_views(factors@),
            i <= arms@.len(),
            tagged_views(result@) == unused(all.take(i as int), used, max_len as nat),
        decreases arms.len() - i,
    {
        assert(all.take(i + 1).drop_last() =~= all.take(i as int));
        assert(all.take(i + 1).last() == arms@[i as int]@);
        assert(label_views(arms@[i as int].pattern.es@).len() == arms@[i as int].pattern.es@.len());
        if !has_tag(factors, arms[i].tag) && arms[i].pattern.es.len() <= max_len {
            let ghost before = result@;
            let arm = TaggedArm { tag: arms[i].tag, pattern: arms[i].pattern.copy() };
            result.push(arm);
            assert(tagged_views(result@) =~= tagged_views(before).push(all[i as int]));
        }
        i = i + 1;
    }
    assert(all.take(i as int) =~= all);
    result
}

fn find_ends(edges: &Vec<AbstractEdge>) -> (result: Vec<VertexId>)
    ensures
        result@ == ends_of(abstract_views(edges@)),
{
    let ghost views = abstract_views(edges@);
    let mut result: Vec<VertexId> = Vec::new();
    let mut i: usize = 0;
    while i < edges.len()
        invariant
            views == abstract_views(edges@),
            i <= edges@.len(),
            result@ == ends_of(views.take(i as int)),
        decreases edges.len() - i,
    {
        assert(views.take(i + 1).drop_last() =~= views.take(i as int));
        assert(views.take(i + 1).last() == edges@[i as int]@);
        if !crate::query::contains_id(&result, edges[i].src) {
            result.push(edges[i].src);
        }
        if !crate::query::contains_id(&result, edges[i].dst) {
            result.push(edges[i].dst);
        }
        i = i + 1;
    }
    assert(views.take(i as int) =~= views);
    result
}

impl QueryGraph {
    /// Takes the stars of the catalog out of abstract edges: what is left of these, and the
    /// stars. Where the stars may have no arm, none is taken.
    pub fn extract_star_local(
        &self,
        edges: &Vec<AbstractEdge>,
        catalog: &DegreeSeqGraph,
        max_star_degree: usize,
        max_star_length: usize,
    ) -> (result: (Vec<AbstractEdge>, Vec<LocalFactor>))
        requires
            self@.wf(),
            forall|i: int|
                #![trigger edges@[i]]
                0 <= i < edges@.len() ==> edges@[i].path_vertices@.len()
                    == edges@[i].original_edge_ids@.len() + 1,
        ensures
            factor_views(result.1@) == stars_taken(
                self@,
                *catalog,
                abstract_views(edges@),
                sorted(ends_of(abstract_views(edges@))),
                max_star_degree as nat,
                max_star_length as nat,
            ),
            abstract_views(result.0@) == edges_kept(
                abstract_views(edges@),
                factor_views(result.1@),
                edges@.len() as int,
            ),
    {
        let ghost graph = self@;
        let ghost views = abstract_views(edges@);
        let centers: Vec<VertexId> = sort(find_ends(edges));
        let mut factors: Vec<LocalFactor> = Vec::new();
        let mut i: usize = 0;
        assert(factor_views(factors@) =~= Seq::empty());
        assert(centers@.take(0) =~= Seq::empty());
        while i < centers.len()
            invariant
                self@.wf(),
                graph == self@,
                forall|j: int|
                    #![trigger edges@[j]]
                    0 <= j < edges@.len() ==> edges@[j].path_vertices@.len()
                        == edges@[j].original_edge_ids@.len() + 1,
                views == abstract_views(edges@),
                i <= centers@.len(),
                factor_views(factors@) == stars_taken(
                    graph,
                    *catalog,
                    views,
                    centers@.take(i as int),
                    max_star_degree as nat,
                    max_star_length as nat,
                ),
            decreases centers.len() - i,
        {
            assert(centers@.take(i + 1).drop_last() =~= centers@.take(i as int));
            let center: VertexId = centers[i];
            if let Some(v) = self.get_vertex(center) {
                let arms: Vec<TaggedArm> = keep_unused(
                    self.find_arms_at(edges, center),
                    &factors,
                    max_star_length,
                );
                proof {
                    lemma_sorted_tags(arms@);
                }
                let arms: Vec<TaggedArm> = sort(arms);
                take_stars(
                    &mut factors,
                    center,
                    v.label.as_str(),
                    arms,
                    max_star_degree,
                    catalog,
                );
            }
            i = i + 1;
        }
        assert(centers@.take(i as int) =~= centers@);
        let ghost used = factor_views(factors@);
        let mut kept: Vec<AbstractEdge> = Vec::new();
        let mut j: usize = 0;
        assert(abstract_views(kept@) =~= Seq::empty());
        while j < edges.len()
            invariant
                views == abstract_views(edges@),
                used == factor_views(factors@),
                j <= edges@.len(),
                abstract_views(kept@) == edges_kept(views, used, j as int),
            decreases edges.len() - j,
        {
            assert(views[j as int] == edges@[j as int]@);
            if !has_tag(&factors, j as u64) {
                let ghost before = kept@;
                kept.push(edges[j].copy());
                assert(abstract_views(kept@) =~= abstract_views(before).push(views[j as int]));
            }
            j = j + 1;
        }
        (kept, factors)
    }
}

} // verus!
