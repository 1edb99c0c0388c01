//! Finding the stars of the catalog among the arms at a center.
use crate::catalog::{has_star, DegreeSeqGraph};
use crate::order::{placed, sorted, Ordered};
use crate::pattern::{
    longest, longest_is_longest, path_relation_flips, path_relation_same, path_relation_transitive,
    pattern_views, PathPattern, PathView, StarStatKey, StarView,
};
use crate::text::Relation;
use vstd::prelude::*;
use vstd::string::*;

verus! {

/// Paths in order with one more, behind all that may precede it.
pub open spec fn path_placed(paths: Seq<PathView>, path: PathView) -> Seq<PathView>
    decreases paths.len(),
{
    if paths.len() == 0 || paths.last().relation(path) != Relation::After {
        paths.push(path)
    } else {
        path_placed(paths.drop_last(), path).push(paths.last())
    }
}

/// Paths in order.
pub open spec fn paths_sorted(paths: Seq<PathView>) -> Seq<PathView>
    decreases paths.len(),
{
    if paths.len() == 0 {
        paths
    } else {
        path_placed(paths_sorted(paths.drop_last()), paths.last())
    }
}

proof fn lemma_placed_views(patterns: Seq<PathPattern>, x: PathPattern)
    ensures
        pattern_views(placed(patterns, x)) == path_placed(pattern_views(patterns), x@),
    decreases patterns.len(),
{
    if patterns.len() == 0 || patterns.last().at_or_before(x) {
        assert(pattern_views(patterns.push(x)) =~= pattern_views(patterns).push(x@));
    } else {
        let head = patterns.drop_last();
        lemma_placed_views(head, x);
        assert(pattern_views(head) =~= pattern_views(patterns).drop_last());
        assert(pattern_views(placed(head, x).push(patterns.last())) =~= pattern_views(
            placed(head, x),
        ).push(patterns.last()@));
    }
}

/// Sorting patterns sorts their paths.
pub proof fn lemma_sorted_views(patterns: Seq<PathPattern>)
    ensures
        pattern_views(sorted(patterns)) == paths_sorted(pattern_views(patterns)),
    decreases patterns.len(),
{
    if patterns.len() == 0 {
        assert(pattern_views(patterns) =~= Seq::empty());
        assert(pattern_views(sorted(patterns)) =~= Seq::empty());
    } else {
        let head = patterns.drop_last();
        lemma_sorted_views(head);
        lemma_placed_views(sorted(head), patterns.last());
        assert(pattern_views(head) =~= pattern_views(patterns).drop_last());
    }
}

/// The star with a center and arms, in whatever order these are given.
pub open spec fn star_of(center: Seq<char>, arms: Seq<PathView>) -> StarView {
    StarView {
        center,
        degree: arms.len(),
        max_arm_len: longest(paths_sorted(arms)),
        arms: paths_sorted(arms),
    }
}

/// Whether positions are a selection of so many of `n`, in ascending order.
pub open spec fn is_selection(places: Seq<usize>, n: nat, degree: nat) -> bool {
    &&& places.len() == degree
    &&& forall|i: int| 0 <= i < places.len() ==> #[trigger] places[i] < n
    &&& forall|i: int, j: int|
        #![trigger places[i], places[j]]
        0 <= i < j < places.len() ==> places[i] < places[j]
}

/// The arms at some positions.
pub open spec fn selected(arms: Seq<PathView>, places: Seq<usize>) -> Seq<PathView> {
    Seq::new(places.len(), |i: int| arms[places[i] as int])
}

/// Whether the arms at some positions make a star of the catalog.
pub open spec fn is_star(
    catalog: DegreeSeqGraph,
    center: Seq<char>,
    arms: Seq<PathView>,
    places: Seq<usize>,
) -> bool {
    has_star(catalog.star_stats@, star_of(center, selected(arms, places)))
}

/// Whether the first of two selections has the lower position where they first differ.
pub open spec fn comes_before(a: Seq<usize>, b: Seq<usize>) -> bool {
    exists|i: int|
        0 <= i < a.len() && i < b.len() && a.take(i) == b.take(i) && #[trigger] a[i] < b[i]
}

/// Whether a selection is the one to take: it makes a star, no larger one does, and none of its
/// size that comes before it does.
pub open spec fn is_best(
    catalog: DegreeSeqGraph,
    center: Seq<char>,
    arms: Seq<PathView>,
    max: nat,
    places: Seq<usize>,
) -> bool {
    &&& is_selection(places, arms.len(), places.len())
    &&& 2 <= places.len() <= max
    &&& is_star(catalog, center, arms, places)
    &&& forall|other: Seq<usize>|
        #![trigger is_star(catalog, center, arms, other)]
        is_selection(other, arms.len(), other.len()) && is_star(catalog, center, arms, other)
            && other.len() <= max ==> other.len() <= places.len() && (other.len() == places.len()
            ==> !comes_before(other, places))
}

/// The selection to take.
pub open spec fn best(
    catalog: DegreeSeqGraph,
    center: Seq<char>,
    arms: Seq<PathView>,
    max: nat,
) -> Option<Seq<usize>> {
    if exists|places: Seq<usize>| is_best(catalog, center, arms, max, places) {
        Some(choose|places: Seq<usize>| is_best(catalog, center, arms, max, places))
    } else {
        None
    }
}

/// Of two different selections of one size, one comes before the other.
proof fn lemma_one_comes_before(a: Seq<usize>, b: Seq<usize>, n: int)
    requires
        a.len() == b.len(),
        0 <= n <= a.len(),
        a.take(n) == b.take(n),
    ensures
        a == b || comes_before(a, b) || comes_before(b, a),
    decreases a.len() - n,
{
    if n == a.len() {
        assert(a.take(n) =~= a);
        assert(b.take(n) =~= b);
    } else if a[n] == b[n] {
        assert(a.take(n + 1) =~= a.take(n).push(a[n]));
        assert(b.take(n + 1) =~= b.take(n).push(b[n]));
        lemma_one_comes_before(a, b, n + 1);
    } else if a[n] < b[n] {
        assert(comes_before(a, b));
    } else {
        assert(comes_before(b, a));
    }
}

/// There is at most one selection to take.
pub proof fn best_is_unique(
    catalog: DegreeSeqGraph,
    center: Seq<char>,
    arms: Seq<PathView>,
    max: nat,
    a: Seq<usize>,
    b: Seq<usize>,
)
    requires
        is_best(catalog, center, arms, max, a),
        is_best(catalog, center, arms, max, b),
    ensures
        a == b,
{
    assert(a.take(0) =~= b.take(0));
    lemma_one_comes_before(a, b, 0);
}

/// Whether a selection starts with given positions and goes on with none below a bound.
spec fn extends(places: Seq<usize>, begun: Seq<usize>, start: usize) -> bool {
    &&& begun.len() <= places.len()
    &&& places.take(begun.len() as int) == begun
    &&& forall|i: int| begun.len() <= i < places.len() ==> #[trigger] places[i] >= start
}

/// In a selection, every position is beyond an earlier one by as much as it comes later.
proof fn lemma_positions_apart(places: Seq<usize>, n: nat, degree: nat, i: int, j: int)
    requires
        is_selection(places, n, degree),
        0 <= i <= j < degree,
    ensures
        places[j] - places[i] >= j - i,
    decreases j - i,
{
    if i < j {
        lemma_positions_apart(places, n, degree, i, j - 1);
        assert(places[j - 1] < places[j]);
    }
}

fn key_of(center_label: &str, arms: &Vec<PathPattern>, places: &Vec<usize>) -> (result: StarStatKey)
    requires
        forall|i: int| 0 <= i < places@.len() ==> #[trigger] places@[i] < arms@.len(),
    ensures
        result@ == star_of(center_label@, selected(pattern_views(arms@), places@)),
{
    let mut picked: Vec<PathPattern> = Vec::new();
    let mut i: usize = 0;
    while i < places.len()
        invariant
            i <= places@.len(),
            forall|j: int| 0 <= j < places@.len() ==> #[trigger] places@[j] < arms@.len(),
            picked@.len() == i,
            forall|j: int|
                #![trigger picked@[j]]
                0 <= j < i ==> picked@[j]@ == arms@[places@[j] as int]@,
        decreases places.len() - i,
    {
        picked.push(arms[places[i]].copy());
        i = i + 1;
    }
    proof {
        assert(pattern_views(picked@) =~= selected(pattern_views(arms@), places@));
        lemma_sorted_views(picked@);
    }
    let result = StarStatKey::new(center_label.to_owned(), picked);
    assert(result@ =~= star_of(center_label@, selected(pattern_views(arms@), places@)));
    result
}

fn match_at_degree(
    center_label: &str,
    arms: &Vec<PathPattern>,
    degree: usize,
    start: usize,
    begun: &Vec<usize>,
    catalog: &DegreeSeqGraph,
) -> (result: Option<Vec<usize>>)
    requires
        begun@.len() <= degree,
        start <= arms@.len(),
        is_selection(begun@, start as nat, begun@.len()),
    ensures
        match result {
            Some(places) => {
                &&& is_selection(places@, arms@.len(), degree as nat)
                &&& extends(places@, begun@, start)
                &&& is_star(*catalog, center_label@, pattern_views(arms@), places@)
                &&& forall|other: Seq<usize>|
                    #![trigger is_star(*catalog, center_label@, pattern_views(arms@), other)]
                    is_selection(other, arms@.len(), degree as nat) && extends(
                        other,
                        begun@,
                        start,
                    ) && is_star(*catalog, center_label@, pattern_views(arms@), other)
                        ==> !comes_before(other, places@)
            },
            None => forall|other: Seq<usize>|
                #![trigger is_star(*catalog, center_label@, pattern_views(arms@), other)]
                is_selection(other, arms@.len(), degree as nat) && extends(other, begun@, start)
                    ==> !is_star(*catalog, center_label@, pattern_views(arms@), other),
        },
    decreases degree - begun@.len(),
{
    let ghost paths = pattern_views(arms@);
    let ghost n = arms@.len();
    let ghost m = begun@.len() as int;
    if begun.len() == degree {
        let key: StarStatKey = key_of(center_label, arms, begun);
        proof {
            assert forall|other: Seq<usize>| is_selection(other, n, degree as nat) && extends(
                other,
                begun@,
                start,
            ) implies other == begun@ by {
                assert(other.take(m) =~= other);
            }
            assert(begun@.take(m) =~= begun@);
            assert(!comes_before(begun@, begun@));
        }
        return match catalog.find_star(&key) {
            Some(_) => Some(copy_places(begun)),
            None => None,
        };
    }
    let needed: usize = degree - begun.len();
    let mut next: usize = start;
    while next < arms.len() && arms.len() - next >= needed
        invariant
            paths == pattern_views(arms@),
            n == arms@.len(),
            m == begun@.len(),
            m < degree,
            needed == degree - m,
            start <= next <= n,
            is_selection(begun@, start as nat, begun@.len()),
            forall|other: Seq<usize>|
                #![trigger is_star(*catalog, center_label@, paths, other)]
                is_selection(other, n, degree as nat) && extends(other, begun@, start) && other[m]
                    < next ==> !is_star(*catalog, center_label@, paths, other),
        decreases n - next,
    {
        let mut further: Vec<usize> = copy_places(begun);
        further.push(next);
        proof {
            assert forall|i: int, j: int|
                #![trigger further@[i], further@[j]]
                0 <= i < j < further@.len() implies further@[i] < further@[j] by {
                if j < m {
                    assert(begun@[i] < begun@[j]);
                } else {
                    assert(begun@[i] < start);
                }
            }
            assert forall|i: int| 0 <= i < further@.len() implies #[trigger] further@[i] < next + 1 by {
                if i < m {
                    assert(begun@[i] < start);
                }
            }
            assert forall|other: Seq<usize>|
                is_selection(other, n, degree as nat) && extends(other, begun@, start) && other[m]
                    == next implies extends(other, further@, (next + 1) as usize) by {
                assert(other.take(m + 1) =~= other.take(m).push(other[m]));
                assert forall|i: int| m + 1 <= i < other.len() implies #[trigger] other[i] >= next
                    + 1 by {
                    assert(other[m] < other[i]);
                }
            }
        }
        if let Some(places) = match_at_degree(
            center_label,
            arms,
            degree,
            next + 1,
            &further,
            catalog,
        ) {
            proof {
                let found = places@;
                assert(found.take(m + 1)[m] == next);
                assert(found.take(m) =~= found.take(m + 1).take(m));
                assert(further@.take(m) =~= begun@);
                assert forall|i: int| m <= i < found.len() implies #[trigger] found[i] >= start by {}
                assert forall|other: Seq<usize>|
                    #![trigger is_star(*catalog, center_label@, paths, other)]
                    is_selection(other, n, degree as nat) && extends(other, begun@, start)
                        && is_star(*catalog, center_label@, paths, other) implies !comes_before(
                    other,
                    found,
                ) by {
                    if other[m] > next && comes_before(other, found) {
                        let i = choose|i: int|
                            0 <= i < other.len() && i < found.len() && other.take(i) == found.take(
                                i,
                            ) && #[trigger] other[i] < found[i];
                        if i < m {
                            assert(other.take(m)[i] == found.take(m)[i]);
                        } else if i > m {
                            assert(other.take(i)[m] == found.take(i)[m]);
                        }
                    }
                }
            }
            return Some(places);
        }
        next = next + 1;
    }
    proof {
        assert forall|other: Seq<usize>|
            #![trigger is_star(*catalog, center_label@, paths, other)]
            is_selection(other, n, degree as nat) && extends(other, begun@, start) implies !is_star(
            *catalog,
            center_label@,
            paths,
            other,
        ) by {
            lemma_positions_apart(other, n, degree as nat, m, degree - 1);
            assert(other[degree - 1] < n);
        }
    }
    None
}

fn copy_places(places: &Vec<usize>) -> (result: Vec<usize>)
    ensures
        result@ == places@,
{
    let mut result: Vec<usize> = Vec::new();
    let mut i: usize = 0;
    while i < places.len()
        invariant
            i <= places@.len(),
            result@ == places@.take(i as int),
        decreases places.len() - i,
    {
        result.push(places[i]);
        assert(result@ =~= places@.take(i + 1));
        i = i + 1;
    }
    assert(result@ =~= places@);
    result
}

/// The positions of the arms that make the largest star of the catalog, and of those the first
/// one.
pub fn find_matching_star(
    center_label: &str,
    arms: &Vec<PathPattern>,
    max_star_degree: usize,
    catalog: &DegreeSeqGraph,
) -> (result: Option<Vec<usize>>)
    ensures
        match result {
            Some(places) => {
                &&& best(*catalog, center_label@, pattern_views(arms@), max_star_degree as nat)
                    == Some(places@)
                &&& is_best(
                    *catalog,
                    center_label@,
                    pattern_views(arms@),
                    max_star_degree as nat,
                    places@,
                )
            },
            None => best(*catalog, center_label@, pattern_views(arms@), max_star_degree as nat)
                is None,
        },
{
    let ghost paths = pattern_views(arms@);
    let ghost n = arms@.len();
    let mut degree: usize = if max_star_degree < arms.len() {
        max_star_degree
    } else {
        arms.len()
    };
    proof {
        assert forall|other: Seq<usize>|
            #![trigger is_star(*catalog, center_label@, paths, other)]
            is_selection(other, n, other.len()) && other.len() > degree implies other.len()
            > max_star_degree by {
            lemma_positions_apart(other, n, other.len(), 0, other.len() - 1);
            assert(other[other.len() - 1] < n);
        }
    }
    while degree >= 2
        invariant
            paths == pattern_views(arms@),
            n == arms@.len(),
            degree <= n,
            degree <= max_star_degree,
            forall|other: Seq<usize>|
                #![trigger is_star(*catalog, center_label@, paths, other)]
                is_selection(other, n, other.len()) && degree < other.len() <= max_star_degree
                    ==> !is_star(*catalog, center_label@, paths, other),
        decreases degree,
    {
        let begun: Vec<usize> = Vec::new();
        let found: Option<Vec<usize>> = match_at_degree(
            center_label,
            arms,
            degree,
            0,
            &begun,
            catalog,
        );
        assert forall|other: Seq<usize>| extends(other, begun@, 0) by {
            assert(other.take(0) =~= begun@);
        }
        if let Some(places) = found {
            proof {
                assert forall|other: Seq<usize>|
                    #![trigger is_star(*catalog, center_label@, paths, other)]
                    is_selection(other, n, other.len()) && is_star(
                        *catalog,
                        center_label@,
                        paths,
                        other,
                    ) && other.len() <= max_star_degree implies other.len() <= places@.len() && (
                other.len() == places@.len() ==> !comes_before(other, places@)) by {
                    if other.len() == degree {
                        assert(extends(other, begun@, 0));
                    }
                }
                assert(is_best(
                    *catalog,
                    center_label@,
                    paths,
                    max_star_degree as nat,
                    places@,
                ));
                let taken = choose|taken: Seq<usize>|
                    is_best(*catalog, center_label@, paths, max_star_degree as nat, taken);
                best_is_unique(
                    *catalog,
                    center_label@,
                    paths,
                    max_star_degree as nat,
                    places@,
                    taken,
                );
            }
            return Some(places);
        }
        assert forall|other: Seq<usize>|
            #![trigger is_star(*catalog, center_label@, paths, other)]
            is_selection(other, n, other.len()) && degree - 1 < other.len()
                <= max_star_degree implies !is_star(*catalog, center_label@, paths, other) by {
            if other.len() == degree {
                assert(extends(other, begun@, 0));
            }
        }
        degree = degree - 1;
    }
    proof {
        assert forall|places: Seq<usize>| !is_best(
            *catalog,
            center_label@,
            paths,
            max_star_degree as nat,
            places,
        ) by {
            if is_best(*catalog, center_label@, paths, max_star_degree as nat, places) {
                assert(is_star(*catalog, center_label@, paths, places));
            }
        }
    }
    None
}

/// Whether paths stand in order.
pub open spec fn are_in_order(paths: Seq<PathView>) -> bool {
    forall|i: int, j: int|
        #![trigger paths[i], paths[j]]
        0 <= i < j < paths.len() ==> paths[i].relation(paths[j]) != Relation::After
}

proof fn lemma_path_order(a: PathView, b: PathView, c: PathView)
    requires
        a.relation(b) != Relation::After,
        b.relation(c) != Relation::After,
    ensures
        a.relation(c) != Relation::After,
{
    path_relation_same(a, b);
    path_relation_same(b, c);
    if a != b && b != c {
        path_relation_transitive(a, b, c);
    }
}

proof fn lemma_path_placed(paths: Seq<PathView>, path: PathView)
    requires
        are_in_order(paths),
    ensures
        are_in_order(path_placed(paths, path)),
        path_placed(paths, path).to_multiset() == paths.to_multiset().insert(path),
        forall|b: PathView|
            (forall|i: int|
                #![trigger paths[i]]
                0 <= i < paths.len() ==> paths[i].relation(b) != Relation::After)
                && #[trigger] path.relation(b) != Relation::After ==> forall|i: int|
                #![trigger path_placed(paths, path)[i]]
                0 <= i < path_placed(paths, path).len() ==> path_placed(paths, path)[i].relation(b)
                    != Relation::After,
    decreases paths.len(),
{
    broadcast use vstd::seq_lib::group_to_multiset_ensures;

    let all = path_placed(paths, path);
    if paths.len() == 0 || paths.last().relation(path) != Relation::After {
        assert forall|i: int, j: int|
            #![trigger all[i], all[j]]
            0 <= i < j < all.len() implies all[i].relation(all[j]) != Relation::After by {
            if j == paths.len() {
                if i < paths.len() - 1 {
                    assert(paths[i].relation(paths[paths.len() - 1]) != Relation::After);
                    lemma_path_order(paths[i], paths.last(), path);
                }
            } else {
                assert(paths[i].relation(paths[j]) != Relation::After);
            }
        }
    } else {
        let fewer = paths.drop_last();
        let last = paths.last();
        path_relation_flips(last, path);
        lemma_path_placed(fewer, path);
        let before = path_placed(fewer, path);
        assert forall|i: int| #![trigger fewer[i]] 0 <= i < fewer.len() implies fewer[i].relation(
            last,
        ) != Relation::After by {
            assert(paths[i].relation(paths[paths.len() - 1]) != Relation::After);
        }
        assert(path.relation(last) != Relation::After);
        assert(all =~= before.push(last));
        assert(paths =~= fewer.push(last));
        assert(all.to_multiset() =~= paths.to_multiset().insert(path));
        assert forall|b: PathView|
            (forall|i: int|
                #![trigger paths[i]]
                0 <= i < paths.len() ==> paths[i].relation(b) != Relation::After)
                && #[trigger] path.relation(b) != Relation::After implies forall|i: int|
            #![trigger all[i]]
            0 <= i < all.len() ==> all[i].relation(b) != Relation::After by {
            assert forall|i: int| #![trigger fewer[i]] 0 <= i < fewer.len() implies
                fewer[i].relation(b) != Relation::After by {
                assert(fewer[i] == paths[i]);
            }
            assert forall|i: int| #![trigger all[i]] 0 <= i < all.len() implies all[i].relation(b)
                != Relation::After by {
                if i < before.len() {
                    assert(all[i] == before[i]);
                } else {
                    assert(paths[paths.len() - 1].relation(b) != Relation::After);
                }
            }
        }
    }
}

/// A star has exactly the arms that are given, in order. Its degree is how many they are, and none
/// of them is longer than the longest.
pub proof fn stars_have_the_given_arms(center: Seq<char>, arms: Seq<PathView>, i: int)
    ensures
        star_of(center, arms).center == center,
        star_of(center, arms).degree == arms.len(),
        are_in_order(star_of(center, arms).arms),
        star_of(center, arms).arms.to_multiset() == arms.to_multiset(),
        0 <= i < arms.len() ==> arms[i].es.len() <= star_of(center, arms).max_arm_len,
{
    broadcast use vstd::seq_lib::group_to_multiset_ensures;

    lemma_paths_sorted(arms);
    let all = paths_sorted(arms);
    longest_is_longest(all);
    if 0 <= i < arms.len() {
        assert(arms.contains(arms[i]));
        assert(arms.to_multiset().count(arms[i]) > 0);
        assert(all.contains(arms[i]));
        let k = choose|k: int| 0 <= k < all.len() && all[k] == arms[i];
        assert(all[k].es.len() <= longest(all));
    }
}

proof fn lemma_paths_sorted(paths: Seq<PathView>)
    ensures
        are_in_order(paths_sorted(paths)),
        paths_sorted(paths).to_multiset() == paths.to_multiset(),
    decreases paths.len(),
{
    broadcast use vstd::seq_lib::group_to_multiset_ensures;

    if paths.len() > 0 {
        lemma_paths_sorted(paths.drop_last());
        lemma_path_placed(paths_sorted(paths.drop_last()), paths.last());
        assert(paths =~= paths.drop_last().push(paths.last()));
    }
}

} // verus!
