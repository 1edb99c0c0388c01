//! The degree sequences of the paths and stars that have degrees.
use crate::catalog::DegreeSeqGraph;
use crate::pattern::{AltKey, StarStatKey, StarView};
use crate::statistic::{LabelStatistic, Statistic};
use crate::table::Table;
use vstd::prelude::*;
use vstd::string::*;

verus! {

/// Whether degrees are listed for a label.
pub open spec fn lists_degrees(
    entries: Seq<(String, Vec<u64>)>,
    label: Seq<char>,
    degrees: Seq<u64>,
) -> bool {
    exists|i: int|
        0 <= i < entries.len() && (#[trigger] entries[i]).0@ == label && entries[i].1@ == degrees
}

/// Whether something is listed, and nothing for a label twice.
pub open spec fn is_listing(entries: Seq<(String, Vec<u64>)>) -> bool {
    &&& entries.len() > 0
    &&& forall|i: int, j: int|
        #![trigger entries[i], entries[j]]
        0 <= i < j < entries.len() ==> entries[i].0@ != entries[j].0@
}

/// Whether something is listed for every path, and nothing for a label twice.
pub open spec fn are_listings(paths: Map<Seq<Seq<char>>, Vec<(String, Vec<u64>)>>) -> bool {
    forall|key: Seq<Seq<char>>| #[trigger] paths.contains_key(key) ==> is_listing(paths[key]@)
}

/// Whether degrees are listed for a path and a label.
pub open spec fn lists_path(
    paths: Map<Seq<Seq<char>>, Vec<(String, Vec<u64>)>>,
    key: Seq<Seq<char>>,
    label: Seq<char>,
    degrees: Seq<u64>,
) -> bool {
    paths.contains_key(key) && lists_degrees(paths[key]@, label, degrees)
}

/// Whether a path has degrees among the first `n` labels and the first `m` paths of the next one.
pub open spec fn path_among(
    labels: Seq<(String, LabelStatistic)>,
    n: int,
    m: int,
    key: Seq<Seq<char>>,
    label: Seq<char>,
    degrees: Seq<u64>,
) -> bool {
    exists|i: int, j: int|
        #![trigger labels[i].1.path_statistic.entries@[j]]
        0 <= i <= n && i < labels.len() && 0 <= j < labels[i].1.path_statistic.entries@.len() && (i
            < n || j < m) && labels[i].0@ == label && labels[i].1.path_statistic.entries@[j].0@
            == key && labels[i].1.path_statistic.entries@[j].1@ == degrees && degrees.len() > 0
}

/// Whether a star has degrees among the first `n` labels and the first `m` stars of the next one.
pub open spec fn star_degrees_among(
    labels: Seq<(String, LabelStatistic)>,
    n: int,
    m: int,
    star: StarView,
    degrees: Seq<u64>,
) -> bool {
    exists|i: int, j: int|
        #![trigger labels[i].1.star_statistic.entries@[j]]
        0 <= i <= n && i < labels.len() && 0 <= j < labels[i].1.star_statistic.entries@.len() && (i
            < n || j < m) && labels[i].1.star_statistic.entries@[j].0@ == star
            && labels[i].1.star_statistic.entries@[j].1@ == degrees && degrees.len() > 0
}

fn copy_degrees(degrees: &Vec<u64>) -> (result: Vec<u64>)
    ensures
        result@ == degrees@,
{
    let mut result: Vec<u64> = Vec::new();
    let mut i: usize = 0;
    while i < degrees.len()
        invariant
            i <= degrees@.len(),
            result@ == degrees@.take(i as int),
        decreases degrees.len() - i,
    {
        result.push(degrees[i]);
        assert(result@ =~= degrees@.take(i + 1));
        i = i + 1;
    }
    assert(degrees@.take(i as int) =~= degrees@);
    result
}

fn list_path(
    paths: &mut Table<AltKey, Vec<(String, Vec<u64>)>>,
    key: &AltKey,
    label: &String,
    degrees: &Vec<u64>,
)
    requires
        old(paths).wf(),
        are_listings(old(paths)@),
        forall|d: Seq<u64>| !#[trigger] lists_path(old(paths)@, key@, label@, d),
    ensures
        final(paths).wf(),
        are_listings(final(paths)@),
        forall|k: Seq<Seq<char>>, l: Seq<char>, d: Seq<u64>| #[trigger]
            lists_path(final(paths)@, k, l, d) == (lists_path(old(paths)@, k, l, d) || k == key@
                && l == label@ && d == degrees@),
        forall|k: Seq<Seq<char>>| #[trigger]
            final(paths)@.contains_key(k) ==> old(paths)@.contains_key(k) || k == key@,
{
    let ghost start = *paths;
    let entry: (String, Vec<u64>) = (label.as_str().to_owned(), copy_degrees(degrees));
    let ghost added = entry;
    match paths.position(key) {
        Some(i) => {
            let mut listed: Vec<(String, Vec<u64>)> = paths.exchange(i, Vec::new());
            let ghost before = listed@;
            listed.push(entry);
            proof {
                lemma_degrees_added(before, added);
                assert(listed@ =~= before.push(added));
                assert(start@.contains_key(key@) && start@[key@]@ == before);
                assert forall|i: int| 0 <= i < before.len() implies (#[trigger] before[i]).0@
                    != label@ by {
                    assert(!lists_path(start@, key@, label@, before[i].1@));
                    assert(!lists_degrees(before, label@, before[i].1@));
                }
                assert(is_listing(listed@));
            }
            paths.replace(i, listed);
            assert(paths@ =~= start@.insert(key@, listed));
        },
        None => {
            let mut listed: Vec<(String, Vec<u64>)> = Vec::new();
            let ghost before = listed@;
            listed.push(entry);
            proof {
                lemma_degrees_added(before, added);
                assert(listed@ =~= before.push(added));
            }
            paths.append(key.copy(), listed);
        },
    }
}

proof fn lemma_degrees_added(before: Seq<(String, Vec<u64>)>, entry: (String, Vec<u64>))
    ensures
        forall|l: Seq<char>, d: Seq<u64>| #[trigger]
            lists_degrees(before.push(entry), l, d) == (lists_degrees(before, l, d) || l
                == entry.0@ && d == entry.1@),
{
    let after = before.push(entry);
    assert forall|l: Seq<char>, d: Seq<u64>| #[trigger]
        lists_degrees(after, l, d) == (lists_degrees(before, l, d) || l == entry.0@ && d
            == entry.1@) by {
        if lists_degrees(before, l, d) {
            let i = choose|i: int|
                0 <= i < before.len() && (#[trigger] before[i]).0@ == l && before[i].1@ == d;
            assert(after[i] == before[i]);
        }
        if lists_degrees(after, l, d) {
            let i = choose|i: int|
                0 <= i < after.len() && (#[trigger] after[i]).0@ == l && after[i].1@ == d;
            if i < before.len() {
                assert(before[i] == after[i]);
            }
        }
        assert(after[before.len() as int] == entry);
    }
}

proof fn lemma_path_step(labels: Seq<(String, LabelStatistic)>, n: int, m: int)
    requires
        0 <= n < labels.len(),
        0 <= m < labels[n].1.path_statistic.entries@.len(),
    ensures
        forall|k: Seq<Seq<char>>, l: Seq<char>, d: Seq<u64>| #[trigger]
            path_among(labels, n, m + 1, k, l, d) == (path_among(labels, n, m, k, l, d) || {
                let entry = labels[n].1.path_statistic.entries@[m];
                labels[n].0@ == l && entry.0@ == k && entry.1@ == d && d.len() > 0
            }),
{
    assert forall|k: Seq<Seq<char>>, l: Seq<char>, d: Seq<u64>| #[trigger]
        path_among(labels, n, m + 1, k, l, d) == (path_among(labels, n, m, k, l, d) || {
            let entry = labels[n].1.path_statistic.entries@[m];
            labels[n].0@ == l && entry.0@ == k && entry.1@ == d && d.len() > 0
        }) by {
        if path_among(labels, n, m + 1, k, l, d) {
            let (i, j) = choose|i: int, j: int|
                #![trigger labels[i].1.path_statistic.entries@[j]]
                0 <= i <= n && i < labels.len() && 0 <= j
                    < labels[i].1.path_statistic.entries@.len() && (i < n || j < m + 1)
                    && labels[i].0@ == l && labels[i].1.path_statistic.entries@[j].0@ == k
                    && labels[i].1.path_statistic.entries@[j].1@ == d && d.len() > 0;
            if i < n || j < m {
                assert(path_among(labels, n, m, k, l, d));
            }
        }
        if path_among(labels, n, m, k, l, d) {
            let (i, j) = choose|i: int, j: int|
                #![trigger labels[i].1.path_statistic.entries@[j]]
                0 <= i <= n && i < labels.len() && 0 <= j
                    < labels[i].1.path_statistic.entries@.len() && (i < n || j < m) && labels[i].0@
                    == l && labels[i].1.path_statistic.entries@[j].0@ == k
                    && labels[i].1.path_statistic.entries@[j].1@ == d && d.len() > 0;
            assert(path_among(labels, n, m + 1, k, l, d));
        }
        assert(labels[n].1.path_statistic.entries@[m] == labels[n].1.path_statistic.entries@[m]);
    }
}

proof fn lemma_path_next(labels: Seq<(String, LabelStatistic)>, n: int)
    requires
        0 <= n < labels.len(),
    ensures
        forall|k: Seq<Seq<char>>, l: Seq<char>, d: Seq<u64>| #[trigger]
            path_among(labels, n + 1, 0, k, l, d) == path_among(
                labels,
                n,
                labels[n].1.path_statistic.entries@.len() as int,
                k,
                l,
                d,
            ),
{
    let m = labels[n].1.path_statistic.entries@.len() as int;
    assert forall|k: Seq<Seq<char>>, l: Seq<char>, d: Seq<u64>| #[trigger]
        path_among(labels, n + 1, 0, k, l, d) == path_among(labels, n, m, k, l, d) by {
        if path_among(labels, n + 1, 0, k, l, d) {
            let (i, j) = choose|i: int, j: int|
                #![trigger labels[i].1.path_statistic.entries@[j]]
                0 <= i <= n + 1 && i < labels.len() && 0 <= j
                    < labels[i].1.path_statistic.entries@.len() && (i < n + 1 || j < 0)
                    && labels[i].0@ == l && labels[i].1.path_statistic.entries@[j].0@ == k
                    && labels[i].1.path_statistic.entries@[j].1@ == d && d.len() > 0;
            assert(path_among(labels, n, m, k, l, d));
        }
        if path_among(labels, n, m, k, l, d) {
            let (i, j) = choose|i: int, j: int|
                #![trigger labels[i].1.path_statistic.entries@[j]]
                0 <= i <= n && i < labels.len() && 0 <= j
                    < labels[i].1.path_statistic.entries@.len() && (i < n || j < m) && labels[i].0@
                    == l && labels[i].1.path_statistic.entries@[j].0@ == k
                    && labels[i].1.path_statistic.entries@[j].1@ == d && d.len() > 0;
            assert(path_among(labels, n + 1, 0, k, l, d));
        }
    }
}

proof fn lemma_star_step(labels: Seq<(String, LabelStatistic)>, n: int, m: int)
    requires
        0 <= n < labels.len(),
        0 <= m < labels[n].1.star_statistic.entries@.len(),
    ensures
        forall|s: StarView, d: Seq<u64>| #[trigger]
            star_degrees_among(labels, n, m + 1, s, d) == (star_degrees_among(labels, n, m, s, d)
                || {
                let entry = labels[n].1.star_statistic.entries@[m];
                entry.0@ == s && entry.1@ == d && d.len() > 0
            }),
{
    assert forall|s: StarView, d: Seq<u64>| #[trigger]
        star_degrees_among(labels, n, m + 1, s, d) == (star_degrees_among(labels, n, m, s, d) || {
            let entry = labels[n].1.star_statistic.entries@[m];
            entry.0@ == s && entry.1@ == d && d.len() > 0
        }) by {
        if star_degrees_among(labels, n, m + 1, s, d) {
            let (i, j) = choose|i: int, j: int|
                #![trigger labels[i].1.star_statistic.entries@[j]]
                0 <= i <= n && i < labels.len() && 0 <= j
                    < labels[i].1.star_statistic.entries@.len() && (i < n || j < m + 1)
                    && labels[i].1.star_statistic.entries@[j].0@ == s
                    && labels[i].1.star_statistic.entries@[j].1@ == d && d.len() > 0;
            if i < n || j < m {
                assert(star_degrees_among(labels, n, m, s, d));
            }
        }
        if star_degrees_among(labels, n, m, s, d) {
            let (i, j) = choose|i: int, j: int|
                #![trigger labels[i].1.star_statistic.entries@[j]]
                0 <= i <= n && i < labels.len() && 0 <= j
                    < labels[i].1.star_statistic.entries@.len() && (i < n || j < m)
                    && labels[i].1.star_statistic.entries@[j].0@ == s
                    && labels[i].1.star_statistic.entries@[j].1@ == d && d.len() > 0;
            assert(star_degrees_among(labels, n, m + 1, s, d));
        }
        assert(labels[n].1.star_statistic.entries@[m] == labels[n].1.star_statistic.entries@[m]);
    }
}

proof fn lemma_star_next(labels: Seq<(String, LabelStatistic)>, n: int)
    requires
        0 <= n < labels.len(),
    ensures
        forall|s: StarView, d: Seq<u64>| #[trigger]
            star_degrees_among(labels, n + 1, 0, s, d) == star_degrees_among(
                labels,
                n,
                labels[n].1.star_statistic.entries@.len() as int,
                s,
                d,
            ),
{
    let m = labels[n].1.star_statistic.entries@.len() as int;
    assert forall|s: StarView, d: Seq<u64>| #[trigger]
        star_degrees_among(labels, n + 1, 0, s, d) == star_degrees_among(labels, n, m, s, d) by {
        if star_degrees_among(labels, n + 1, 0, s, d) {
            let (i, j) = choose|i: int, j: int|
                #![trigger labels[i].1.star_statistic.entries@[j]]
                0 <= i <= n + 1 && i < labels.len() && 0 <= j
                    < labels[i].1.star_statistic.entries@.len() && (i < n + 1 || j < 0)
                    && labels[i].1.star_statistic.entries@[j].0@ == s
                    && labels[i].1.star_statistic.entries@[j].1@ == d && d.len() > 0;
            assert(star_degrees_among(labels, n, m, s, d));
        }
        if star_degrees_among(labels, n, m, s, d) {
            let (i, j) = choose|i: int, j: int|
                #![trigger labels[i].1.star_statistic.entries@[j]]
                0 <= i <= n && i < labels.len() && 0 <= j
                    < labels[i].1.star_statistic.entries@.len() && (i < n || j < m)
                    && labels[i].1.star_statistic.entries@[j].0@ == s
                    && labels[i].1.star_statistic.entries@[j].1@ == d && d.len() > 0;
            assert(star_degrees_among(labels, n + 1, 0, s, d));
        }
    }
}

/// Whether every star with degrees is listed, with the degrees that it has at some label.
pub open spec fn lists_stars(
    stars: Map<StarView, Vec<u64>>,
    labels: Seq<(String, LabelStatistic)>,
    n: int,
    m: int,
) -> bool {
    &&& forall|s: StarView| #[trigger]
        stars.contains_key(s) ==> star_degrees_among(labels, n, m, s, stars[s]@)
    &&& forall|s: StarView, d: Seq<u64>| #[trigger]
        star_degrees_among(labels, n, m, s, d) ==> stars.contains_key(s)
}

impl Statistic {
    /// Whether there are degrees for a path at a label, and which they are.
    pub open spec fn has_path_degrees(
        self,
        key: Seq<Seq<char>>,
        label: Seq<char>,
        degrees: Seq<u64>,
    ) -> bool {
        degrees.len() > 0 && self.labels().contains_key(label)
            && self.labels()[label].paths.contains_key(key) && self.labels()[label].paths[key]
            == degrees
    }

    /// Whether there are degrees for a star at some label, and which they are.
    pub open spec fn has_star_degrees(self, star: StarView, degrees: Seq<u64>) -> bool {
        degrees.len() > 0 && exists|label: Seq<char>| #[trigger]
            self.labels().contains_key(label) && self.labels()[label].stars.contains_key(star)
                && self.labels()[label].stars[star] == degrees
    }

    /// The degree sequences of all paths and stars that have any, those of a path by label.
    pub fn to_degree_seq_graph_compressed(&self) -> (result: DegreeSeqGraph)
        requires
            self.wf(),
        ensures
            ({
                let paths = Table { entries: result.edge_set_to_endpoints };
                &&& paths.wf()
                &&& are_listings(paths@)
                &&& forall|key: Seq<Seq<char>>, label: Seq<char>, degrees: Seq<u64>| #[trigger]
                    lists_path(paths@, key, label, degrees) == self.has_path_degrees(
                        key,
                        label,
                        degrees,
                    )
            }),
            ({
                let stars = Table { entries: result.star_stats };
                &&& stars.wf()
                &&& forall|star: StarView| #[trigger]
                    stars@.contains_key(star) ==> self.has_star_degrees(star, stars@[star]@)
                &&& forall|star: StarView, degrees: Seq<u64>| #[trigger]
                    self.has_star_degrees(star, degrees) ==> stars@.contains_key(star)
            }),
            result.path_aliases@.len() == 0,
            result.edge_cardinalities@.len() == 0,
    {
        let ghost labels = self.label_path_statistic.entries@;
        let mut paths: Table<AltKey, Vec<(String, Vec<u64>)>> = Table::new();
        let mut stars: Table<StarStatKey, Vec<u64>> = Table::new();
        let mut i: usize = 0;
        while i < self.label_path_statistic.entries.len()
            invariant
                self.wf(),
                labels == self.label_path_statistic.entries@,
                i <= labels.len(),
                paths.wf(),
                are_listings(paths@),
                stars.wf(),
                forall|k: Seq<Seq<char>>, l: Seq<char>, d: Seq<u64>| #[trigger]
                    lists_path(paths@, k, l, d) == path_among(labels, i as int, 0, k, l, d),
                lists_stars(stars@, labels, i as int, 0),
            decreases labels.len() - i,
        {
            let entry: &(String, LabelStatistic) = &self.label_path_statistic.entries[i];
            let mut j: usize = 0;
            while j < entry.1.path_statistic.entries.len()
                invariant
                    self.wf(),
                    labels == self.label_path_statistic.entries@,
                    i < labels.len(),
                    *entry == labels[i as int],
                    j <= entry.1.path_statistic.entries@.len(),
                    paths.wf(),
                    are_listings(paths@),
                    forall|k: Seq<Seq<char>>, l: Seq<char>, d: Seq<u64>| #[trigger]
                        lists_path(paths@, k, l, d) == path_among(
                            labels,
                            i as int,
                            j as int,
                            k,
                            l,
                            d,
                        ),
                decreases entry.1.path_statistic.entries.len() - j,
            {
                let ghost before = paths@;
                let path: &(AltKey, crate::statistic::BlockStatistic) =
                    &entry.1.path_statistic.entries[j];
                if path.1.degrees.len() > 0 {
                    proof {
                        lemma_path_is_new(*self, i as int, j as int);
                        assert forall|d: Seq<u64>| !#[trigger]
                            lists_path(paths@, path.0@, entry.0@, d) by {
                            assert(!path_among(
                                labels,
                                i as int,
                                j as int,
                                path.0@,
                                entry.0@,
                                d,
                            ));
                        }
                    }
                    list_path(&mut paths, &path.0, &entry.0, &path.1.degrees);
                }
                proof {
                    lemma_path_step(labels, i as int, j as int);
                    assert forall|k: Seq<Seq<char>>, l: Seq<char>, d: Seq<u64>| #[trigger]
                        lists_path(paths@, k, l, d) == path_among(
                            labels,
                            i as int,
                            j + 1,
                            k,
                            l,
                            d,
                        ) by {
                        assert(lists_path(before, k, l, d) == path_among(
                            labels,
                            i as int,
                            j as int,
                            k,
                            l,
                            d,
                        ));
                    }
                }
                j = j + 1;
            }
            proof {
                lemma_path_next(labels, i as int);
            }
            let mut j: usize = 0;
            while j < entry.1.star_statistic.entries.len()
                invariant
                    labels == self.label_path_statistic.entries@,
                    i < labels.len(),
                    *entry == labels[i as int],
                    j <= entry.1.star_statistic.entries@.len(),
                    stars.wf(),
                    lists_stars(stars@, labels, i as int, j as int),
                decreases entry.1.star_statistic.entries.len() - j,
            {
                let ghost before = stars@;
                let star: &(StarStatKey, crate::statistic::BlockStatistic) =
                    &entry.1.star_statistic.entries[j];
                if star.1.degrees.len() > 0 {
                    stars.insert(star.0.copy(), copy_degrees(&star.1.degrees));
                }
                proof {
                    lemma_star_step(labels, i as int, j as int);
                    let now = stars@;
                    assert forall|s: StarView| #[trigger] now.contains_key(s) implies
                        star_degrees_among(labels, i as int, j + 1, s, now[s]@) by {
                        if before.contains_key(s) && now[s] == before[s] {
                            assert(star_degrees_among(
                                labels,
                                i as int,
                                j as int,
                                s,
                                before[s]@,
                            ));
                        }
                    }
                    assert forall|s: StarView, d: Seq<u64>| #[trigger]
                        star_degrees_among(labels, i as int, j + 1, s, d) implies now.contains_key(
                        s,
                    ) by {
                        if star_degrees_among(labels, i as int, j as int, s, d) {
                            assert(before.contains_key(s));
                        }
                    }
                }
                j = j + 1;
            }
            proof {
                lemma_star_next(labels, i as int);
                let now = stars@;
                assert forall|s: StarView| #[trigger] now.contains_key(s) implies
                    star_degrees_among(labels, i + 1, 0, s, now[s]@) by {
                    assert(star_degrees_among(labels, i as int, j as int, s, now[s]@));
                }
                assert forall|s: StarView, d: Seq<u64>| #[trigger]
                    star_degrees_among(labels, i + 1, 0, s, d) implies now.contains_key(s) by {
                    assert(star_degrees_among(labels, i as int, j as int, s, d));
                }
            }
            i = i + 1;
        }
        proof {
            assert forall|key: Seq<Seq<char>>, label: Seq<char>, degrees: Seq<u64>| #[trigger]
                lists_path(paths@, key, label, degrees) == self.has_path_degrees(
                    key,
                    label,
                    degrees,
                ) by {
                lemma_path_degrees(*self, key, label, degrees);
            }
            assert forall|star: StarView| #[trigger]
                stars@.contains_key(star) implies self.has_star_degrees(star, stars@[star]@) by {
                lemma_star_degrees(*self, star, stars@[star]@);
            }
            assert forall|star: StarView, degrees: Seq<u64>| #[trigger]
                self.has_star_degrees(star, degrees) implies stars@.contains_key(star) by {
                lemma_star_degrees(*self, star, degrees);
            }
        }
        DegreeSeqGraph {
            edge_set_to_endpoints: paths.entries,
            star_stats: stars.entries,
            path_aliases: Vec::new(),
            edge_cardinalities: Vec::new(),
        }
    }
}

proof fn lemma_path_is_new(statistic: Statistic, n: int, m: int)
    requires
        statistic.wf(),
        0 <= n < statistic.label_path_statistic.entries@.len(),
        0 <= m < statistic.label_path_statistic.entries@[n].1.path_statistic.entries@.len(),
    ensures
        ({
            let labels = statistic.label_path_statistic.entries@;
            let key = labels[n].1.path_statistic.entries@[m].0@;
            forall|d: Seq<u64>| !#[trigger] path_among(labels, n, m, key, labels[n].0@, d)
        }),
{
    let labels = statistic.label_path_statistic.entries@;
    let key = labels[n].1.path_statistic.entries@[m].0@;
    let label = labels[n].0@;
    assert forall|d: Seq<u64>| !#[trigger] path_among(labels, n, m, key, label, d) by {
        if path_among(labels, n, m, key, label, d) {
            let (i, j) = choose|i: int, j: int|
                #![trigger labels[i].1.path_statistic.entries@[j]]
                0 <= i <= n && i < labels.len() && 0 <= j
                    < labels[i].1.path_statistic.entries@.len() && (i < n || j < m) && labels[i].0@
                    == label && labels[i].1.path_statistic.entries@[j].0@ == key
                    && labels[i].1.path_statistic.entries@[j].1@ == d && d.len() > 0;
            if i < n {
                assert(labels[i].0@ != labels[n].0@);
            } else {
                let entries = labels[n].1.path_statistic.entries@;
                assert(entries[j].0@ != entries[m].0@);
            }
        }
    }
}

proof fn lemma_path_degrees(
    statistic: Statistic,
    key: Seq<Seq<char>>,
    label: Seq<char>,
    degrees: Seq<u64>,
)
    requires
        statistic.wf(),
    ensures
        statistic.has_path_degrees(key, label, degrees) == path_among(
            statistic.label_path_statistic.entries@,
            statistic.label_path_statistic.entries@.len() as int,
            0,
            key,
            label,
            degrees,
        ),
{
    let labels = statistic.label_path_statistic.entries@;
    let n = labels.len() as int;
    if path_among(labels, n, 0, key, label, degrees) {
        let (i, j) = choose|i: int, j: int|
            #![trigger labels[i].1.path_statistic.entries@[j]]
            0 <= i <= n && i < labels.len() && 0 <= j < labels[i].1.path_statistic.entries@.len()
                && (i < n || j < 0) && labels[i].0@ == label
                && labels[i].1.path_statistic.entries@[j].0@ == key
                && labels[i].1.path_statistic.entries@[j].1@ == degrees && degrees.len() > 0;
        statistic.label_path_statistic.lemma_entry(i);
        labels[i].1.path_statistic.lemma_entry(j);
    }
    if statistic.has_path_degrees(key, label, degrees) {
        let i = statistic.label_path_statistic.lemma_key(label);
        let j = labels[i].1.path_statistic.lemma_key(key);
        assert(labels[i].1.path_statistic.entries@[j].0@ == key);
    }
}

proof fn lemma_star_degrees(statistic: Statistic, star: StarView, degrees: Seq<u64>)
    requires
        statistic.wf(),
    ensures
        statistic.has_star_degrees(star, degrees) == star_degrees_among(
            statistic.label_path_statistic.entries@,
            statistic.label_path_statistic.entries@.len() as int,
            0,
            star,
            degrees,
        ),
{
    let labels = statistic.label_path_statistic.entries@;
    let n = labels.len() as int;
    if star_degrees_among(labels, n, 0, star, degrees) {
        let (i, j) = choose|i: int, j: int|
            #![trigger labels[i].1.star_statistic.entries@[j]]
            0 <= i <= n && i < labels.len() && 0 <= j < labels[i].1.star_statistic.entries@.len()
                && (i < n || j < 0) && labels[i].1.star_statistic.entries@[j].0@ == star
                && labels[i].1.star_statistic.entries@[j].1@ == degrees && degrees.len() > 0;
        statistic.label_path_statistic.lemma_entry(i);
        labels[i].1.star_statistic.lemma_entry(j);
        assert(statistic.labels().contains_key(labels[i].0@));
    }
    if statistic.has_star_degrees(star, degrees) {
        let label = choose|label: Seq<char>| #[trigger]
            statistic.labels().contains_key(label) && statistic.labels()[label].stars.contains_key(
                star,
            ) && statistic.labels()[label].stars[star] == degrees;
        let i = statistic.label_path_statistic.lemma_key(label);
        let j = labels[i].1.star_statistic.lemma_key(star);
        assert(labels[i].1.star_statistic.entries@[j].0@ == star);
    }
}

} // verus!
