//! What is known of a data graph: which paths and stars have degree sequences, and how the edge
//! types relate their ends.
use crate::pattern::{AltKey, StarStatKey, StarView};
use crate::schema::EdgeCardinality;
use crate::text::is_text;
use vstd::prelude::*;
use vstd::string::*;

verus! {

/// Another path whose degree sequences stand for those of a path, and which of its end labels
/// stands for which.
#[derive(Debug)]
pub struct PathAlias {
    pub source: AltKey,
    pub endpoint_map: Vec<(String, String)>,
}

/// Degree sequences of paths, by key and end label, and of stars.
#[derive(Debug)]
pub struct DegreeSeqGraph {
    pub edge_set_to_endpoints: Vec<(AltKey, Vec<(String, Vec<u64>)>)>,
    pub path_aliases: Vec<(AltKey, PathAlias)>,
    pub star_stats: Vec<(StarStatKey, Vec<u64>)>,
    pub edge_cardinalities: Vec<(String, EdgeCardinality)>,
}

/// Whether one of the entries has a label.
pub open spec fn has_label(entries: Seq<(String, Vec<u64>)>, label: Seq<char>) -> bool {
    exists|i: int| 0 <= i < entries.len() && (#[trigger] entries[i]).0@ == label
}

/// The first cardinality that is listed for a label.
pub open spec fn listed_cardinality(
    entries: Seq<(String, EdgeCardinality)>,
    label: Seq<char>,
) -> Option<EdgeCardinality>
    decreases entries.len(),
{
    if entries.len() == 0 {
        None
    } else if entries.first().0@ == label {
        Some(entries.first().1)
    } else {
        listed_cardinality(entries.drop_first(), label)
    }
}

/// Whether one of the entries has the key of a star.
pub open spec fn has_star(entries: Seq<(StarStatKey, Vec<u64>)>, star: StarView) -> bool {
    exists|i: int| 0 <= i < entries.len() && (#[trigger] entries[i]).0@ == star
}

impl DegreeSeqGraph {
    /// Nothing is known.
    pub fn new() -> (result: DegreeSeqGraph)
        ensures
            result.edge_set_to_endpoints@.len() == 0,
            result.path_aliases@.len() == 0,
            result.star_stats@.len() == 0,
            result.edge_cardinalities@.len() == 0,
    {
        DegreeSeqGraph {
            edge_set_to_endpoints: Vec::new(),
            path_aliases: Vec::new(),
            star_stats: Vec::new(),
            edge_cardinalities: Vec::new(),
        }
    }

    /// Whether the path with a key has a degree sequence of its own at both of its ends.
    pub open spec fn has_path(
        self,
        key: Seq<Seq<char>>,
        first: Seq<char>,
        last: Seq<char>,
    ) -> bool {
        exists|i: int|
            0 <= i < self.edge_set_to_endpoints@.len() && (
            #[trigger] self.edge_set_to_endpoints@[i]).0@ == key && has_label(
                self.edge_set_to_endpoints@[i].1@,
                first,
            ) && has_label(self.edge_set_to_endpoints@[i].1@, last)
    }

    /// Whether the path with a key has a degree sequence of its own at both of its ends.
    pub fn path_has_materialized_endpoint_pair(&self, key: &AltKey, first: &str, last: &str) -> (result:
        bool)
        ensures
            result == self.has_path(key@, first@, last@),
    {
        let mut i: usize = 0;
        while i < self.edge_set_to_endpoints.len()
            invariant
                i <= self.edge_set_to_endpoints@.len(),
                forall|j: int|
                    0 <= j < i ==> !((#[trigger] self.edge_set_to_endpoints@[j]).0@ == key@
                        && has_label(self.edge_set_to_endpoints@[j].1@, first@) && has_label(
                        self.edge_set_to_endpoints@[j].1@,
                        last@,
                    )),
            decreases self.edge_set_to_endpoints.len() - i,
        {
            let entry: &(AltKey, Vec<(String, Vec<u64>)>) = &self.edge_set_to_endpoints[i];
            if entry.0.same_as(key) && lists_label(&entry.1, first) && lists_label(&entry.1, last) {
                return true;
            }
            i = i + 1;
        }
        false
    }

    /// The cardinality that is known for an edge label.
    pub fn edge_cardinality(&self, label: &str) -> (result: Option<EdgeCardinality>)
        ensures
            result == listed_cardinality(self.edge_cardinalities@, label@),
    {
        let mut i: usize = 0;
        assert(self.edge_cardinalities@.skip(0) =~= self.edge_cardinalities@);
        while i < self.edge_cardinalities.len()
            invariant
                i <= self.edge_cardinalities@.len(),
                listed_cardinality(self.edge_cardinalities@, label@) == listed_cardinality(
                    self.edge_cardinalities@.skip(i as int),
                    label@,
                ),
            decreases self.edge_cardinalities.len() - i,
        {
            assert(self.edge_cardinalities@.skip(i as int).first()
                == self.edge_cardinalities@[i as int]);
            assert(self.edge_cardinalities@.skip(i as int).drop_first()
                =~= self.edge_cardinalities@.skip(i + 1));
            if is_text(self.edge_cardinalities[i].0.as_str(), label) {
                return Some(self.edge_cardinalities[i].1);
            }
            i = i + 1;
        }
        None
    }

    /// The position of the entry of a star.
    pub fn find_star(&self, star: &StarStatKey) -> (result: Option<usize>)
        ensures
            match result {
                Some(i) => {
                    &&& i < self.star_stats@.len()
                    &&& self.star_stats@[i as int].0@ == star@
                    &&& forall|j: int|
                        0 <= j < i ==> (#[trigger] self.star_stats@[j]).0@ != star@
                },
                None => !has_star(self.star_stats@, star@),
            },
    {
        let mut i: usize = 0;
        while i < self.star_stats.len()
            invariant
                i <= self.star_stats@.len(),
                forall|j: int| 0 <= j < i ==> (#[trigger] self.star_stats@[j]).0@ != star@,
            decreases self.star_stats.len() - i,
        {
            if self.star_stats[i].0.same_as(star) {
                return Some(i);
            }
            i = i + 1;
        }
        None
    }
}

/// Whether the end label of a path is mapped to one at which another path has a degree sequence.
pub open spec fn maps_end(
    entries: Seq<(AltKey, Vec<(String, Vec<u64>)>)>,
    alias: PathAlias,
    label: Seq<char>,
) -> bool {
    exists|i: int|
        0 <= i < alias.endpoint_map@.len() && (#[trigger] alias.endpoint_map@[i]).0@ == label
            && listed_degrees(entries, alias.source@, alias.endpoint_map@[i].1@) is Some
}

impl DegreeSeqGraph {
    /// Whether the path with a key has a degree sequence at both of its ends, of its own or of
    /// another path that stands for it.
    pub open spec fn has_pair(
        self,
        key: Seq<Seq<char>>,
        first: Seq<char>,
        last: Seq<char>,
    ) -> bool {
        self.has_path(key, first, last) || exists|i: int|
            0 <= i < self.path_aliases@.len() && (#[trigger] self.path_aliases@[i]).0@ == key
                && maps_end(self.edge_set_to_endpoints@, self.path_aliases@[i].1, first)
                && maps_end(self.edge_set_to_endpoints@, self.path_aliases@[i].1, last)
    }

    fn alias_maps(&self, alias: &PathAlias, label: &str) -> (result: bool)
        ensures
            result == maps_end(self.edge_set_to_endpoints@, *alias, label@),
    {
        let mut i: usize = 0;
        while i < alias.endpoint_map.len()
            invariant
                i <= alias.endpoint_map@.len(),
                forall|j: int|
                    0 <= j < i ==> !((#[trigger] alias.endpoint_map@[j]).0@ == label@
                        && listed_degrees(
                        self.edge_set_to_endpoints@,
                        alias.source@,
                        alias.endpoint_map@[j].1@,
                    ) is Some),
            decreases alias.endpoint_map.len() - i,
        {
            if is_text(alias.endpoint_map[i].0.as_str(), label) && self.materialized_degrees(
                &alias.source,
                alias.endpoint_map[i].1.as_str(),
            ).is_some() {
                assert(alias.endpoint_map@[i as int].0@ == label@);
                return true;
            }
            i = i + 1;
        }
        false
    }

    /// Whether the path with a key has a degree sequence at both of its ends, of its own or of
    /// another path that stands for it.
    pub fn path_has_endpoint_pair(&self, key: &AltKey, first: &str, last: &str) -> (result: bool)
        ensures
            result == self.has_pair(key@, first@, last@),
    {
        if self.path_has_materialized_endpoint_pair(key, first, last) {
            return true;
        }
        let mut i: usize = 0;
        while i < self.path_aliases.len()
            invariant
                i <= self.path_aliases@.len(),
                !self.has_path(key@, first@, last@),
                forall|j: int|
                    0 <= j < i ==> !((#[trigger] self.path_aliases@[j]).0@ == key@ && maps_end(
                        self.edge_set_to_endpoints@,
                        self.path_aliases@[j].1,
                        first@,
                    ) && maps_end(self.edge_set_to_endpoints@, self.path_aliases@[j].1, last@)),
            decreases self.path_aliases.len() - i,
        {
            let entry: &(AltKey, PathAlias) = &self.path_aliases[i];
            if entry.0.same_as(key) && self.alias_maps(&entry.1, first) && self.alias_maps(
                &entry.1,
                last,
            ) {
                assert(self.path_aliases@[i as int].0@ == key@);
                return true;
            }
            i = i + 1;
        }
        false
    }
}

/// The largest degree of the stars among the first `n`.
pub open spec fn largest_degree(stars: Seq<(StarStatKey, Vec<u64>)>, n: int) -> nat
    decreases n,
{
    if n <= 0 {
        0
    } else {
        let before = largest_degree(stars, n - 1);
        if stars[n - 1].0.degree > before {
            stars[n - 1].0.degree as nat
        } else {
            before
        }
    }
}

/// The length of the longest arm of the stars among the first `n`.
pub open spec fn largest_length(stars: Seq<(StarStatKey, Vec<u64>)>, n: int) -> nat
    decreases n,
{
    if n <= 0 {
        0
    } else {
        let before = largest_length(stars, n - 1);
        if stars[n - 1].0.max_arm_len > before {
            stars[n - 1].0.max_arm_len as nat
        } else {
            before
        }
    }
}

/// The degree sequence of a path at the end with a label, from the first entry that has one.
pub open spec fn listed_degrees(
    entries: Seq<(AltKey, Vec<(String, Vec<u64>)>)>,
    key: Seq<Seq<char>>,
    label: Seq<char>,
) -> Option<Seq<u64>>
    decreases entries.len(),
{
    if entries.len() == 0 {
        None
    } else {
        match listed_degrees(entries.drop_last(), key, label) {
            Some(degrees) => Some(degrees),
            None => if entries.last().0@ == key {
                degrees_for(entries.last().1@, label)
            } else {
                None
            },
        }
    }
}

/// The first degree sequence for a label.
pub open spec fn degrees_for(entries: Seq<(String, Vec<u64>)>, label: Seq<char>) -> Option<Seq<u64>>
    decreases entries.len(),
{
    if entries.len() == 0 {
        None
    } else {
        match degrees_for(entries.drop_last(), label) {
            Some(degrees) => Some(degrees),
            None => if entries.last().0@ == label {
                Some(entries.last().1@)
            } else {
                None
            },
        }
    }
}

proof fn lemma_degrees_for(entries: Seq<(String, Vec<u64>)>, label: Seq<char>, n: int)
    requires
        0 <= n <= entries.len(),
        degrees_for(entries.take(n), label) is Some,
    ensures
        degrees_for(entries, label) == degrees_for(entries.take(n), label),
    decreases entries.len(),
{
    if n == entries.len() {
        assert(entries.take(n) =~= entries);
    } else {
        assert(entries.drop_last().take(n) =~= entries.take(n));
        lemma_degrees_for(entries.drop_last(), label, n);
    }
}

proof fn lemma_listed_degrees(
    entries: Seq<(AltKey, Vec<(String, Vec<u64>)>)>,
    key: Seq<Seq<char>>,
    label: Seq<char>,
    n: int,
)
    requires
        0 <= n <= entries.len(),
        listed_degrees(entries.take(n), key, label) is Some,
    ensures
        listed_degrees(entries, key, label) == listed_degrees(entries.take(n), key, label),
    decreases entries.len(),
{
    if n == entries.len() {
        assert(entries.take(n) =~= entries);
    } else {
        assert(entries.drop_last().take(n) =~= entries.take(n));
        lemma_listed_degrees(entries.drop_last(), key, label, n);
    }
}

fn find_degrees<'a>(entries: &'a Vec<(String, Vec<u64>)>, label: &str) -> (result: Option<
    &'a Vec<u64>,
>)
    ensures
        match result {
            Some(degrees) => degrees_for(entries@, label@) == Some(degrees@),
            None => degrees_for(entries@, label@) is None,
        },
{
    let mut i: usize = 0;
    assert(entries@.take(0) =~= Seq::empty());
    while i < entries.len()
        invariant
            i <= entries@.len(),
            degrees_for(entries@.take(i as int), label@) is None,
        decreases entries.len() - i,
    {
        assert(entries@.take(i + 1).drop_last() =~= entries@.take(i as int));
        if is_text(entries[i].0.as_str(), label) {
            proof {
                lemma_degrees_for(entries@, label@, i + 1);
            }
            return Some(&entries[i].1);
        }
        i = i + 1;
    }
    assert(entries@.take(i as int) =~= entries@);
    None
}

impl DegreeSeqGraph {
    /// The largest degree of a star.
    pub fn max_star_degree(&self) -> (result: usize)
        ensures
            result == largest_degree(self.star_stats@, self.star_stats@.len() as int),
    {
        let mut largest: usize = 0;
        let mut i: usize = 0;
        while i < self.star_stats.len()
            invariant
                i <= self.star_stats@.len(),
                largest == largest_degree(self.star_stats@, i as int),
            decreases self.star_stats.len() - i,
        {
            if self.star_stats[i].0.degree > largest {
                largest = self.star_stats[i].0.degree;
            }
            i = i + 1;
        }
        largest
    }

    /// The length of the longest arm of a star.
    pub fn max_star_length(&self) -> (result: usize)
        ensures
            result == largest_length(self.star_stats@, self.star_stats@.len() as int),
    {
        let mut largest: usize = 0;
        let mut i: usize = 0;
        while i < self.star_stats.len()
            invariant
                i <= self.star_stats@.len(),
                largest == largest_length(self.star_stats@, i as int),
            decreases self.star_stats.len() - i,
        {
            if self.star_stats[i].0.max_arm_len > largest {
                largest = self.star_stats[i].0.max_arm_len;
            }
            i = i + 1;
        }
        largest
    }

    /// The degree sequence of a path at the end with a label.
    pub fn materialized_degrees(&self, key: &AltKey, label: &str) -> (result: Option<&Vec<u64>>)
        ensures
            match result {
                Some(degrees) => listed_degrees(self.edge_set_to_endpoints@, key@, label@) == Some(
                    degrees@,
                ),
                None => listed_degrees(self.edge_set_to_endpoints@, key@, label@) is None,
            },
    {
        let ghost entries = self.edge_set_to_endpoints@;
        let mut i: usize = 0;
        assert(entries.take(0) =~= Seq::empty());
        while i < self.edge_set_to_endpoints.len()
            invariant
                entries == self.edge_set_to_endpoints@,
                i <= entries.len(),
                listed_degrees(entries.take(i as int), key@, label@) is None,
            decreases self.edge_set_to_endpoints.len() - i,
        {
            assert(entries.take(i + 1).drop_last() =~= entries.take(i as int));
            if self.edge_set_to_endpoints[i].0.same_as(key) {
                if let Some(degrees) = find_degrees(&self.edge_set_to_endpoints[i].1, label) {
                    proof {
                        lemma_listed_degrees(entries, key@, label@, i + 1);
                    }
                    return Some(degrees);
                }
            }
            i = i + 1;
        }
        assert(entries.take(i as int) =~= entries);
        None
    }
}

fn lists_label(entries: &Vec<(String, Vec<u64>)>, label: &str) -> (result: bool)
    ensures
        result == has_label(entries@, label@),
{
    let mut i: usize = 0;
    while i < entries.len()
        invariant
            i <= entries@.len(),
            forall|j: int| 0 <= j < i ==> (#[trigger] entries@[j]).0@ != label@,
        decreases entries.len() - i,
    {
        if is_text(entries[i].0.as_str(), label) {
            return true;
        }
        i = i + 1;
    }
    false
}

/// Whether an entry is the first with a label.
pub open spec fn is_first_for<T>(entries: Seq<(String, T)>, label: Seq<char>, i: int) -> bool {
    &&& 0 <= i < entries.len()
    &&& entries[i].0@ == label
    &&& forall|j: int| #![trigger entries[j]] 0 <= j < i ==> entries[j].0@ != label
}

/// The degree sequence for a label is that of the first entry with it; there is none exactly where
/// no entry has it.
pub proof fn degrees_are_those_of_the_first_entry(
    entries: Seq<(String, Vec<u64>)>,
    label: Seq<char>,
)
    ensures
        match degrees_for(entries, label) {
            Some(degrees) => exists|i: int| #[trigger]
                is_first_for(entries, label, i) && entries[i].1@ == degrees,
            None => !has_label(entries, label),
        },
    decreases entries.len(),
{
    if entries.len() > 0 {
        let n = entries.len() - 1;
        let fewer = entries.drop_last();
        degrees_are_those_of_the_first_entry(fewer, label);
        assert forall|j: int| 0 <= j < n implies #[trigger] entries[j] == fewer[j] by {}
        match degrees_for(fewer, label) {
            Some(degrees) => {
                let i = choose|i: int| #[trigger]
                    is_first_for(fewer, label, i) && fewer[i].1@ == degrees;
                assert forall|j: int| #![trigger entries[j]] 0 <= j < i implies entries[j].0@
                    != label by {
                    assert(fewer[j].0@ != label);
                }
                assert(is_first_for(entries, label, i));
            },
            None => {
                assert forall|j: int| #![trigger entries[j]] 0 <= j < n implies entries[j].0@
                    != label by {
                    assert(fewer[j].0@ != label);
                }
                if entries.last().0@ == label {
                    assert(is_first_for(entries, label, n));
                }
            },
        }
    }
}

/// Whether an entry is the first for a path that has a degree sequence for a label.
pub open spec fn is_first_listing(
    entries: Seq<(AltKey, Vec<(String, Vec<u64>)>)>,
    key: Seq<Seq<char>>,
    label: Seq<char>,
    i: int,
) -> bool {
    &&& 0 <= i < entries.len()
    &&& entries[i].0@ == key && has_label(entries[i].1@, label)
    &&& forall|j: int|
        #![trigger entries[j]]
        0 <= j < i ==> !(entries[j].0@ == key && has_label(entries[j].1@, label))
}

/// The degree sequence of a path at the end with a label is the first one that an entry for the
/// path has for the label; there is none exactly where no such entry has one.
pub proof fn paths_have_the_degrees_that_are_listed_first(
    entries: Seq<(AltKey, Vec<(String, Vec<u64>)>)>,
    key: Seq<Seq<char>>,
    label: Seq<char>,
)
    ensures
        match listed_degrees(entries, key, label) {
            Some(degrees) => exists|i: int, k: int|
                #![trigger is_first_listing(entries, key, label, i), entries[i].1@[k]]
                is_first_listing(entries, key, label, i) && is_first_for(entries[i].1@, label, k)
                    && entries[i].1@[k].1@ == degrees,
            None => forall|i: int|
                #![trigger entries[i]]
                0 <= i < entries.len() ==> !(entries[i].0@ == key && has_label(
                    entries[i].1@,
                    label,
                )),
        },
    decreases entries.len(),
{
    if entries.len() > 0 {
        let n = entries.len() - 1;
        let fewer = entries.drop_last();
        paths_have_the_degrees_that_are_listed_first(fewer, key, label);
        assert forall|j: int| 0 <= j < n implies #[trigger] entries[j] == fewer[j] by {}
        match listed_degrees(fewer, key, label) {
            Some(degrees) => {
                let (i, k) = choose|i: int, k: int|
                    #![trigger is_first_listing(fewer, key, label, i), fewer[i].1@[k]]
                    is_first_listing(fewer, key, label, i) && is_first_for(fewer[i].1@, label, k)
                        && fewer[i].1@[k].1@ == degrees;
                assert forall|j: int| #![trigger entries[j]] 0 <= j < i implies !(entries[j].0@
                    == key && has_label(entries[j].1@, label)) by {
                    assert(fewer[j] == entries[j]);
                }
                assert(is_first_listing(entries, key, label, i));
                assert(entries[i].1@[k].1@ == degrees);
            },
            None => {
                assert forall|j: int| #![trigger entries[j]] 0 <= j < n implies !(entries[j].0@
                    == key && has_label(entries[j].1@, label)) by {
                    assert(fewer[j] == entries[j]);
                }
                degrees_are_those_of_the_first_entry(entries[n].1@, label);
                if entries.last().0@ == key {
                    if let Some(degrees) = degrees_for(entries[n].1@, label) {
                        let k = choose|k: int| #[trigger]
                            is_first_for(entries[n].1@, label, k) && entries[n].1@[k].1@ == degrees;
                        assert(has_label(entries[n].1@, label)) by {
                            assert(entries[n].1@[k].0@ == label);
                        }
                        assert(is_first_listing(entries, key, label, n));
                        assert(entries[n].1@[k].1@ == degrees);
                    }
                }
            },
        }
    }
}

/// The cardinality of an edge type is the one that is listed first for its label; there is none
/// exactly where none is listed.
pub proof fn cardinalities_are_those_listed_first(
    entries: Seq<(String, EdgeCardinality)>,
    label: Seq<char>,
)
    ensures
        match listed_cardinality(entries, label) {
            Some(cardinality) => exists|i: int| #[trigger]
                is_first_for(entries, label, i) && entries[i].1 == cardinality,
            None => forall|i: int|
                #![trigger entries[i]]
                0 <= i < entries.len() ==> entries[i].0@ != label,
        },
    decreases entries.len(),
{
    if entries.len() > 0 {
        let rest = entries.drop_first();
        if entries[0].0@ == label {
            assert(is_first_for(entries, label, 0));
        } else {
            cardinalities_are_those_listed_first(rest, label);
            match listed_cardinality(rest, label) {
                Some(cardinality) => {
                    let i = choose|i: int| #[trigger]
                        is_first_for(rest, label, i) && rest[i].1 == cardinality;
                    assert(rest[i] == entries[i + 1]);
                    assert forall|j: int| #![trigger entries[j]] 0 <= j < i + 1 implies
                        entries[j].0@ != label by {
                        if j > 0 {
                            assert(rest[j - 1] == entries[j]);
                        }
                    }
                    assert(is_first_for(entries, label, i + 1));
                },
                None => {
                    assert forall|j: int| #![trigger entries[j]] 0 <= j < entries.len() implies
                        entries[j].0@ != label by {
                        if j > 0 {
                            assert(rest[j - 1] == entries[j]);
                        }
                    }
                },
            }
        }
    }
}

/// No star has a larger degree than the largest, or a longer arm than the longest; where there are
/// stars, one has that degree, and one has an arm that long.
pub proof fn no_star_is_larger(stars: Seq<(StarStatKey, Vec<u64>)>, n: int, i: int)
    requires
        0 <= i < n <= stars.len(),
    ensures
        stars[i].0.degree <= largest_degree(stars, n),
        stars[i].0.max_arm_len <= largest_length(stars, n),
        exists|k: int| 0 <= k < n && (#[trigger] stars[k]).0.degree == largest_degree(stars, n),
        exists|k: int| 0 <= k < n && (#[trigger] stars[k]).0.max_arm_len == largest_length(stars, n),
    decreases n,
{
    if n > 1 {
        no_star_is_larger(
            stars,
            n - 1,
            if i < n - 1 {
                i
            } else {
                0
            },
        );
        let a = choose|a: int|
            0 <= a < n - 1 && (#[trigger] stars[a]).0.degree == largest_degree(stars, n - 1);
        let b = choose|b: int|
            0 <= b < n - 1 && (#[trigger] stars[b]).0.max_arm_len == largest_length(stars, n - 1);
        assert(stars[n - 1].0.degree == largest_degree(stars, n) || stars[a].0.degree
            == largest_degree(stars, n));
        assert(stars[n - 1].0.max_arm_len == largest_length(stars, n) || stars[b].0.max_arm_len
            == largest_length(stars, n));
    } else {
        assert(largest_degree(stars, 0) == 0 && largest_length(stars, 0) == 0);
        assert(stars[0].0.degree == largest_degree(stars, n));
        assert(stars[0].0.max_arm_len == largest_length(stars, n));
    }
}

} // verus!
