//! Paths and stars of labels, under which statistics are kept.
use crate::order::{placed, sort, sorted, sorting_orders_the_values, Ordered};
use crate::text::{
    append_decimal, copy_labels, decimal, label_views, labels_relation, labels_relation_flips,
    labels_relation_same, labels_relation_transitive, relate_label_lists, reversed_labels,
    same_label_lists, Relation,
};
use vstd::prelude::*;
use vstd::string::*;

verus! {

/// A path as the labels of its vertices and of its edges.
#[verifier::ext_equal]
pub struct PathView {
    pub vs: Seq<Seq<char>>,
    pub es: Seq<Seq<char>>,
}

impl PathView {
    /// The path walked from its other end.
    pub open spec fn reversed(self) -> PathView {
        PathView { vs: self.vs.reverse(), es: self.es.reverse() }
    }

    /// A path has one vertex more than it has edges.
    pub open spec fn is_path(self) -> bool {
        self.vs.len() == self.es.len() + 1
    }

    /// Paths are ordered by their vertices, then by their edges.
    pub open spec fn relation(self, other: PathView) -> Relation {
        match labels_relation(self.vs, other.vs) {
            Relation::Same => labels_relation(self.es, other.es),
            different => different,
        }
    }

    /// The direction of the path that comes first in the order.
    pub open spec fn canonical(self) -> PathView {
        if self.relation(self.reversed()) == Relation::After {
            self.reversed()
        } else {
            self
        }
    }

    /// The labels in the order in which a walk meets them.
    pub open spec fn interleaved(self) -> Seq<Seq<char>> {
        Seq::new(
            (2 * self.es.len() + 1) as nat,
            |i: int|
                if i % 2 == 0 {
                    self.vs[i / 2]
                } else {
                    self.es[i / 2]
                },
        )
    }
}

/// Only a path itself stands at its own place in the order.
pub proof fn path_relation_same(a: PathView, b: PathView)
    ensures
        a.relation(b) == Relation::Same <==> a == b,
{
    labels_relation_same(a.vs, b.vs);
    labels_relation_same(a.es, b.es);
}

/// Exchanging two paths flips their relation.
pub proof fn path_relation_flips(a: PathView, b: PathView)
    ensures
        b.relation(a) == a.relation(b).flipped(),
{
    labels_relation_flips(a.vs, b.vs);
    labels_relation_flips(a.es, b.es);
}

/// The order of paths is transitive.
pub proof fn path_relation_transitive(a: PathView, b: PathView, c: PathView)
    requires
        a.relation(b) == Relation::Before,
        b.relation(c) == Relation::Before,
    ensures
        a.relation(c) == Relation::Before,
{
    labels_relation_same(a.vs, b.vs);
    labels_relation_same(b.vs, c.vs);
    if a.vs == b.vs && b.vs == c.vs {
        labels_relation_same(a.vs, c.vs);
        labels_relation_transitive(a.es, b.es, c.es);
    } else if a.vs != b.vs && b.vs != c.vs {
        labels_relation_transitive(a.vs, b.vs, c.vs);
    }
}

/// Walking a path backwards twice is walking it forwards.
pub proof fn reversal_undoes_itself(path: PathView)
    ensures
        path.reversed().reversed() == path,
{
    assert(path.reversed().reversed() =~= path);
}

/// A path and its reverse have one canonical form.
pub proof fn canonical_ignores_direction(path: PathView)
    ensures
        path.reversed().canonical() == path.canonical(),
{
    reversal_undoes_itself(path);
    path_relation_flips(path, path.reversed());
    path_relation_same(path, path.reversed());
}

/// A canonical form is its own canonical form.
pub proof fn canonical_is_stable(path: PathView)
    ensures
        path.canonical().canonical() == path.canonical(),
{
    canonical_ignores_direction(path);
}

/// A canonical form is one of the two directions of the path, and does not come behind its
/// reverse.
pub proof fn canonical_comes_first(path: PathView)
    ensures
        path.canonical() == path || path.canonical() == path.reversed(),
        path.canonical().relation(path.canonical().reversed()) != Relation::After,
{
    reversal_undoes_itself(path);
    path_relation_flips(path, path.reversed());
}

/// A key for a path in either direction: the labels as given, and the direction of them that
/// comes first in the order. Two keys are the same where the latter are.
#[derive(Debug, Clone)]
pub struct AltKey {
    pub raw: Vec<String>,
    pub normalized: Vec<String>,
}

/// The direction of a sequence of labels that comes first in the order.
pub open spec fn first_direction(labels: Seq<Seq<char>>) -> Seq<Seq<char>> {
    if labels_relation(labels, labels.reverse()) == Relation::After {
        labels.reverse()
    } else {
        labels
    }
}

/// A sequence of labels and its reverse have one first direction.
pub proof fn first_direction_ignores_direction(labels: Seq<Seq<char>>)
    ensures
        first_direction(labels.reverse()) == first_direction(labels),
{
    assert(labels.reverse().reverse() =~= labels);
    labels_relation_flips(labels, labels.reverse());
    labels_relation_same(labels, labels.reverse());
}

impl View for AltKey {
    type V = Seq<Seq<char>>;

    open spec fn view(&self) -> Seq<Seq<char>> {
        label_views(self.normalized@)
    }
}

proof fn lemma_views_reverse(labels: Seq<String>)
    ensures
        label_views(labels.reverse()) == label_views(labels).reverse(),
{
    assert(label_views(labels.reverse()) =~= label_views(labels).reverse());
}

impl AltKey {
    /// The second field is the first direction of the first one.
    pub open spec fn wf(self) -> bool {
        label_views(self.normalized@) == first_direction(label_views(self.raw@))
    }

    /// The key of a sequence of labels.
    pub fn new(raw: Vec<String>) -> (result: AltKey)
        ensures
            result.raw == raw,
            result.wf(),
            result@ == first_direction(label_views(raw@)),
    {
        let backwards = reversed_labels(&raw);
        proof {
            lemma_views_reverse(raw@);
        }
        let normalized = match relate_label_lists(&raw, &backwards) {
            Relation::After => backwards,
            _ => copy_labels(&raw),
        };
        AltKey { raw, normalized }
    }

    /// Whether two keys stand for the same path.
    pub fn same_as(&self, other: &AltKey) -> (result: bool)
        ensures
            result == (self@ == other@),
    {
        same_label_lists(&self.normalized, &other.normalized)
    }

    /// A copy of the key.
    pub fn copy(&self) -> (result: AltKey)
        ensures
            result.raw@ == self.raw@,
            result.normalized@ == self.normalized@,
            result@ == self@,
    {
        AltKey { raw: copy_labels(&self.raw), normalized: copy_labels(&self.normalized) }
    }
}

/// The key of the path with the given vertices and edges.
pub fn make_alt_key(vs: &Vec<String>, es: &Vec<String>) -> (result: AltKey)
    requires
        vs@.len() == es@.len() + 1,
    ensures
        result.wf(),
        label_views(result.raw@) == (PathView {
            vs: label_views(vs@),
            es: label_views(es@),
        }).interleaved(),
        result@ == first_direction(
            (PathView { vs: label_views(vs@), es: label_views(es@) }).interleaved(),
        ),
{
    let ghost path = PathView { vs: label_views(vs@), es: label_views(es@) };
    let mut raw: Vec<String> = Vec::new();
    let mut i: usize = 0;
    while i < es.len()
        invariant
            vs@.len() == es@.len() + 1,
            path == (PathView { vs: label_views(vs@), es: label_views(es@) }),
            i <= es@.len(),
            label_views(raw@) == path.interleaved().take(2 * i),
        decreases es.len() - i,
    {
        raw.push(vs[i].clone());
        raw.push(es[i].clone());
        proof {
            let next = path.interleaved().take(2 * (i + 1));
            assert(path.interleaved()[2 * i] == path.vs[i as int]);
            assert(path.interleaved()[2 * i + 1] == path.es[i as int]);
            assert(next =~= path.interleaved().take(2 * i).push(path.vs[i as int]).push(
                path.es[i as int],
            ));
            assert(label_views(raw@) =~= next);
        }
        i = i + 1;
    }
    raw.push(vs[i].clone());
    assert(path.interleaved()[2 * i] == path.vs[i as int]);
    assert(path.interleaved() =~= path.interleaved().take(2 * i).push(path.vs[i as int]));
    assert(label_views(raw@) =~= path.interleaved());
    AltKey::new(raw)
}

/// A path and its reverse have one key.
pub proof fn keys_ignore_direction(path: PathView)
    requires
        path.is_path(),
    ensures
        first_direction(path.reversed().interleaved()) == first_direction(path.interleaved()),
{
    assert(path.reversed().interleaved() =~= path.interleaved().reverse()) by {
        assert forall|i: int| 0 <= i < 2 * path.es.len() + 1 implies path.reversed().interleaved()[i]
            == path.interleaved().reverse()[i] by {
            let n = path.es.len() as int;
            assert((2 * n - i) % 2 == i % 2);
            if i % 2 == 0 {
                assert((2 * n - i) / 2 == n - i / 2);
            } else {
                assert((2 * n - i) / 2 == n - 1 - i / 2);
            }
        }
    }
    first_direction_ignores_direction(path.interleaved());
}

/// A path pattern: vertex labels and edge labels, in walking order.
#[derive(Debug, Clone)]
pub struct PathPattern {
    pub vs: Vec<String>,
    pub es: Vec<String>,
}

impl View for PathPattern {
    type V = PathView;

    open spec fn view(&self) -> PathView {
        PathView { vs: label_views(self.vs@), es: label_views(self.es@) }
    }
}

/// A path as text: its first vertex, then an arrow with its edge to each further vertex.
pub open spec fn path_text(path: PathView, steps: nat) -> Seq<char>
    decreases steps,
{
    if steps == 0 {
        path.vs[0]
    } else {
        path_text(path, (steps - 1) as nat) + " -"@ + path.es[steps - 1] + "-> "@ + path.vs[steps as int]
    }
}

impl PathPattern {
    /// The pattern of a path, in the direction that comes first in the order.
    pub fn new(vs: Vec<String>, es: Vec<String>) -> (result: PathPattern)
        requires
            vs@.len() == es@.len() + 1,
        ensures
            result@ == (PathView { vs: label_views(vs@), es: label_views(es@) }).canonical(),
            result@.is_path(),
    {
        let rvs = reversed_labels(&vs);
        let res = reversed_labels(&es);
        proof {
            lemma_views_reverse(vs@);
            lemma_views_reverse(es@);
        }
        if is_after(&vs, &es, &rvs, &res) {
            PathPattern { vs: rvs, es: res }
        } else {
            PathPattern { vs, es }
        }
    }

    /// The pattern of a path in the direction given.
    pub fn new_without_reverse(vs: Vec<String>, es: Vec<String>) -> (result: PathPattern)
        requires
            vs@.len() == es@.len() + 1,
        ensures
            result.vs == vs,
            result.es == es,
            result@.is_path(),
    {
        PathPattern { vs, es }
    }

    /// The key of the path, in either direction.
    pub fn to_alt_key(&self) -> (result: AltKey)
        requires
            self@.is_path(),
        ensures
            result.wf(),
            label_views(result.raw@) == self@.interleaved(),
            result@ == first_direction(self@.interleaved()),
    {
        make_alt_key(&self.vs, &self.es)
    }

    /// The pattern walked from its other end.
    pub fn reversed(&self) -> (result: PathPattern)
        ensures
            result.vs@ == self.vs@.reverse(),
            result.es@ == self.es@.reverse(),
            result@ == self@.reversed(),
    {
        proof {
            lemma_views_reverse(self.vs@);
            lemma_views_reverse(self.es@);
        }
        PathPattern { vs: reversed_labels(&self.vs), es: reversed_labels(&self.es) }
    }

    /// The pattern without its first vertex and edge.
    pub fn suffix(&self) -> (result: PathPattern)
        requires
            self@.is_path(),
            self.es@.len() > 0,
        ensures
            result.vs@ == self.vs@.skip(1),
            result.es@ == self.es@.skip(1),
            result@.is_path(),
    {
        PathPattern::new_without_reverse(labels_from(&self.vs, 1), labels_from(&self.es, 1))
    }

    /// The pattern in the direction that comes first in the order.
    pub fn canonical(&self) -> (result: PathPattern)
        ensures
            result@ == self@.canonical(),
    {
        let vs = reversed_labels(&self.vs);
        let es = reversed_labels(&self.es);
        proof {
            lemma_views_reverse(self.vs@);
            lemma_views_reverse(self.es@);
            path_relation_flips(self@, self@.reversed());
            path_relation_same(self@, self@.reversed());
        }
        if is_after(&vs, &es, &self.vs, &self.es) {
            self.copy()
        } else {
            PathPattern { vs, es }
        }
    }

    /// A copy of the pattern.
    pub fn copy(&self) -> (result: PathPattern)
        ensures
            result.vs@ == self.vs@,
            result.es@ == self.es@,
            result@ == self@,
    {
        PathPattern { vs: copy_labels(&self.vs), es: copy_labels(&self.es) }
    }

    /// Whether two patterns have the same labels.
    pub fn same_as(&self, other: &PathPattern) -> (result: bool)
        ensures
            result == (self@ == other@),
    {
        same_label_lists(&self.vs, &other.vs) && same_label_lists(&self.es, &other.es)
    }

    /// The pattern as text.
    pub fn to_text(&self) -> (result: String)
        requires
            self@.is_path(),
        ensures
            result@ == path_text(self@, self@.es.len()),
    {
        let mut result: String = self.vs[0].clone();
        let mut i: usize = 0;
        while i < self.es.len()
            invariant
                self@.is_path(),
                i <= self.es@.len(),
                result@ == path_text(self@, i as nat),
            decreases self.es.len() - i,
        {
            result.append(" -");
            result.append(self.es[i].as_str());
            result.append("-> ");
            result.append(self.vs[i + 1].as_str());
            i = i + 1;
        }
        result
    }
}

/// Whether one path comes behind another in the order.
fn is_after(
    vs: &Vec<String>,
    es: &Vec<String>,
    other_vs: &Vec<String>,
    other_es: &Vec<String>,
) -> (result: bool)
    ensures
        result == ((PathView { vs: label_views(vs@), es: label_views(es@) }).relation(
            PathView { vs: label_views(other_vs@), es: label_views(other_es@) },
        ) == Relation::After),
{
    match relate_label_lists(vs, other_vs) {
        Relation::Same => relate_label_lists(es, other_es) == Relation::After,
        Relation::Before => false,
        Relation::After => true,
    }
}

/// A copy of the labels from a position on.
fn labels_from(labels: &Vec<String>, start: usize) -> (result: Vec<String>)
    requires
        start <= labels@.len(),
    ensures
        result@ == labels@.skip(start as int),
{
    let mut result: Vec<String> = Vec::new();
    let mut i: usize = start;
    while i < labels.len()
        invariant
            start <= i <= labels@.len(),
            result@ == labels@.subrange(start as int, i as int),
        decreases labels.len() - i,
    {
        result.push(labels[i].clone());
        i = i + 1;
        assert(result@ =~= labels@.subrange(start as int, i as int));
    }
    assert(result@ =~= labels@.skip(start as int));
    result
}

impl Ordered for PathPattern {
    open spec fn at_or_before(self, other: PathPattern) -> bool {
        self@.relation(other@) != Relation::After
    }

    proof fn order_is_total(a: PathPattern, b: PathPattern) {
        path_relation_flips(a@, b@);
    }

    proof fn order_is_transitive(a: PathPattern, b: PathPattern, c: PathPattern) {
        path_relation_same(a@, b@);
        path_relation_same(b@, c@);
        if a@ != b@ && b@ != c@ {
            path_relation_transitive(a@, b@, c@);
        }
    }

    fn may_precede(&self, other: &PathPattern) -> (result: bool) {
        !is_after(&self.vs, &self.es, &other.vs, &other.es)
    }
}

/// The paths of a sequence of patterns.
pub open spec fn pattern_views(patterns: Seq<PathPattern>) -> Seq<PathView> {
    patterns.map_values(|p: PathPattern| p@)
}

/// The number of edges of the longest of the paths, or 0 where there is none.
pub open spec fn longest(paths: Seq<PathView>) -> nat
    decreases paths.len(),
{
    if paths.len() == 0 {
        0
    } else if paths.last().es.len() > longest(paths.drop_last()) {
        paths.last().es.len()
    } else {
        longest(paths.drop_last())
    }
}

/// The longest is as long as one of the paths, and no path is longer.
pub proof fn longest_is_longest(paths: Seq<PathView>)
    ensures
        forall|i: int| 0 <= i < paths.len() ==> (#[trigger] paths[i]).es.len() <= longest(paths),
        paths.len() > 0 ==> exists|i: int|
            0 <= i < paths.len() && (#[trigger] paths[i]).es.len() == longest(paths),
    decreases paths.len(),
{
    if paths.len() > 0 {
        longest_is_longest(paths.drop_last());
        assert forall|i: int| 0 <= i < paths.len() implies (#[trigger] paths[i]).es.len()
            <= longest(paths) by {
            if i < paths.len() - 1 {
                assert(paths.drop_last()[i].es.len() <= longest(paths.drop_last()));
            }
        }
        if paths.last().es.len() > longest(paths.drop_last()) || paths.len() == 1 {
            assert(paths[paths.len() - 1].es.len() == longest(paths));
        } else {
            let i = choose|i: int|
                0 <= i < paths.len() - 1 && (#[trigger] paths.drop_last()[i]).es.len() == longest(
                    paths.drop_last(),
                );
            assert(paths[i].es.len() == longest(paths));
        }
    }
}

/// The key of a star: a center and the paths that lead from it.
#[derive(Debug, Clone)]
pub struct StarStatKey {
    pub center_label: String,
    pub degree: usize,
    pub max_arm_len: usize,
    pub arms: Vec<PathPattern>,
}

/// A star as its center and its arms.
#[verifier::ext_equal]
pub struct StarView {
    pub center: Seq<char>,
    pub degree: nat,
    pub max_arm_len: nat,
    pub arms: Seq<PathView>,
}

impl View for StarStatKey {
    type V = StarView;

    open spec fn view(&self) -> StarView {
        StarView {
            center: self.center_label@,
            degree: self.degree as nat,
            max_arm_len: self.max_arm_len as nat,
            arms: pattern_views(self.arms@),
        }
    }
}

/// The arms of a star as text, with a bar between them.
pub open spec fn arms_text(arms: Seq<PathView>, n: nat) -> Seq<char>
    decreases n,
{
    if n == 0 {
        ""@
    } else if n == 1 {
        path_text(arms[0], arms[0].es.len())
    } else {
        arms_text(arms, (n - 1) as nat) + " | "@ + path_text(arms[n - 1], arms[n - 1].es.len())
    }
}

impl StarStatKey {
    /// The key of a star; its arms are kept in order, so their order does not matter.
    pub fn new(center_label: String, arms: Vec<PathPattern>) -> (result: StarStatKey)
        ensures
            result.center_label == center_label,
            result.arms@ == sorted(arms@),
            result.degree == arms@.len(),
            result.max_arm_len == longest(pattern_views(sorted(arms@))),
    {
        proof {
            sorting_orders_the_values(arms@);
        }
        let arms = sort(arms);
        let degree: usize = arms.len();
        let mut max_arm_len: usize = 0;
        let mut i: usize = 0;
        assert(pattern_views(arms@).take(0) =~= Seq::empty());
        while i < arms.len()
            invariant
                i <= arms@.len(),
                max_arm_len == longest(pattern_views(arms@).take(i as int)),
            decreases arms.len() - i,
        {
            assert(pattern_views(arms@).take(i + 1).drop_last() =~= pattern_views(arms@).take(
                i as int,
            ));
            assert(pattern_views(arms@).take(i + 1).last() == arms@[i as int]@);
            if arms[i].es.len() > max_arm_len {
                max_arm_len = arms[i].es.len();
            }
            i = i + 1;
        }
        assert(pattern_views(arms@).take(arms@.len() as int) =~= pattern_views(arms@));
        StarStatKey { center_label, degree, max_arm_len, arms }
    }

    /// Whether two keys stand for the same star.
    pub fn same_as(&self, other: &StarStatKey) -> (result: bool)
        ensures
            result == (self@ == other@),
    {
        if self.center_label != other.center_label || self.degree != other.degree
            || self.max_arm_len != other.max_arm_len || self.arms.len() != other.arms.len() {
            assert(self@.arms.len() == self.arms@.len());
            assert(other@.arms.len() == other.arms@.len());
            return false;
        }
        let mut i: usize = 0;
        while i < self.arms.len()
            invariant
                i <= self.arms@.len(),
                self.arms@.len() == other.arms@.len(),
                forall|j: int| 0 <= j < i ==> (#[trigger] self.arms@[j])@ == other.arms@[j]@,
            decreases self.arms.len() - i,
        {
            if !self.arms[i].same_as(&other.arms[i]) {
                assert(self@.arms[i as int] != other@.arms[i as int]);
                return false;
            }
            i = i + 1;
        }
        assert(self@.arms =~= other@.arms);
        assert(self@ =~= other@);
        true
    }

    /// A copy of the key.
    pub fn copy(&self) -> (result: StarStatKey)
        ensures
            result@ == self@,
            result.center_label == self.center_label,
            result.arms@.len() == self.arms@.len(),
            forall|i: int|
                #![trigger result.arms@[i]]
                0 <= i < self.arms@.len() ==> result.arms@[i].vs@ == self.arms@[i].vs@
                    && result.arms@[i].es@ == self.arms@[i].es@,
    {
        let mut arms: Vec<PathPattern> = Vec::new();
        let mut i: usize = 0;
        while i < self.arms.len()
            invariant
                i <= self.arms@.len(),
                arms@.len() == i,
                forall|j: int|
                    #![trigger arms@[j]]
                    0 <= j < i ==> arms@[j].vs@ == self.arms@[j].vs@ && arms@[j].es@
                        == self.arms@[j].es@ && arms@[j]@ == self.arms@[j]@,
            decreases self.arms.len() - i,
        {
            arms.push(self.arms[i].copy());
            i = i + 1;
        }
        assert(pattern_views(arms@) =~= pattern_views(self.arms@));
        StarStatKey {
            center_label: self.center_label.clone(),
            degree: self.degree,
            max_arm_len: self.max_arm_len,
            arms,
        }
    }

    /// The key as text.
    pub fn to_text(&self) -> (result: String)
        requires
            forall|i: int| 0 <= i < self.arms@.len() ==> (#[trigger] self.arms@[i])@.is_path(),
        ensures
            result@ == "star(center="@ + self@.center + ", degree="@ + decimal(self@.degree)
                + ", max_arm_len="@ + decimal(self@.max_arm_len) + ", arms=["@ + arms_text(
                self@.arms,
                self@.arms.len(),
            ) + "])"@,
    {
        let mut arms: String = "".to_owned();
        let mut i: usize = 0;
        while i < self.arms.len()
            invariant
                i <= self.arms@.len(),
                forall|i: int| 0 <= i < self.arms@.len() ==> (#[trigger] self.arms@[i])@.is_path(),
                arms@ == arms_text(self@.arms, i as nat),
            decreases self.arms.len() - i,
        {
            if i > 0 {
                arms.append(" | ");
            }
            proof {
                reveal_strlit("");
            }
            let text = self.arms[i].to_text();
            arms.append(text.as_str());
            assert(i == 0 ==> arms@ =~= text@);
            i = i + 1;
        }
        let mut result: String = "star(center=".to_owned();
        result.append(self.center_label.as_str());
        result.append(", degree=");
        append_decimal(&mut result, self.degree as u64);
        result.append(", max_arm_len=");
        append_decimal(&mut result, self.max_arm_len as u64);
        result.append(", arms=[");
        result.append(arms.as_str());
        result.append("])");
        result
    }
}

proof fn lemma_views_of_placed(s: Seq<PathPattern>, x: PathPattern)
    ensures
        pattern_views(placed(s, x)).to_multiset() == pattern_views(s).to_multiset().insert(x@),
    decreases s.len(),
{
    broadcast use vstd::seq_lib::group_to_multiset_ensures;

    if s.len() == 0 || s.last().at_or_before(x) {
        assert(pattern_views(s.push(x)) =~= pattern_views(s).push(x@));
    } else {
        lemma_views_of_placed(s.drop_last(), x);
        let t = placed(s.drop_last(), x);
        assert(pattern_views(t.push(s.last())) =~= pattern_views(t).push(s.last()@));
        assert(pattern_views(s) =~= pattern_views(s.drop_last()).push(s.last()@));
        assert(pattern_views(t.push(s.last())).to_multiset() =~= pattern_views(
            s,
        ).to_multiset().insert(x@));
    }
}

proof fn lemma_views_of_sorted(s: Seq<PathPattern>)
    ensures
        pattern_views(sorted(s)).to_multiset() == pattern_views(s).to_multiset(),
    decreases s.len(),
{
    broadcast use vstd::seq_lib::group_to_multiset_ensures;

    if s.len() > 0 {
        lemma_views_of_sorted(s.drop_last());
        lemma_views_of_placed(sorted(s.drop_last()), s.last());
        assert(pattern_views(s) =~= pattern_views(s.drop_last()).push(s.last()@));
    }
}

/// Two lists with the same arms, in whatever order, give the same key.
pub proof fn star_keys_ignore_arm_order(a: Seq<PathPattern>, b: Seq<PathPattern>)
    requires
        pattern_views(a).to_multiset() == pattern_views(b).to_multiset(),
    ensures
        pattern_views(sorted(a)) == pattern_views(sorted(b)),
{
    let leq = |p: PathView, q: PathView| p.relation(q) != Relation::After;
    lemma_views_of_sorted(a);
    lemma_views_of_sorted(b);
    sorting_orders_the_values(a);
    sorting_orders_the_values(b);
    assert(vstd::relations::total_ordering(leq)) by {
        assert forall|p: PathView| #[trigger] leq(p, p) by {
            path_relation_same(p, p);
        }
        assert forall|p: PathView, q: PathView| #[trigger]
            leq(p, q) && #[trigger] leq(q, p) implies p == q by {
            path_relation_flips(p, q);
            path_relation_same(p, q);
        }
        assert forall|p: PathView, q: PathView, r: PathView| #[trigger]
            leq(p, q) && #[trigger] leq(q, r) implies leq(p, r) by {
            path_relation_same(p, q);
            path_relation_same(q, r);
            if p != q && q != r {
                path_relation_transitive(p, q, r);
            }
        }
        assert forall|p: PathView, q: PathView| #[trigger] leq(p, q) || #[trigger] leq(q, p) by {
            path_relation_flips(p, q);
        }
    }
    let x = pattern_views(sorted(a));
    let y = pattern_views(sorted(b));
    assert(vstd::relations::sorted_by(x, leq)) by {
        assert forall|i: int, j: int| 0 <= i < j < x.len() implies #[trigger] leq(x[i], x[j]) by {
            assert(sorted(a)[i].at_or_before(sorted(a)[j]));
        }
    }
    assert(vstd::relations::sorted_by(y, leq)) by {
        assert forall|i: int, j: int| 0 <= i < j < y.len() implies #[trigger] leq(y[i], y[j]) by {
            assert(sorted(b)[i].at_or_before(sorted(b)[j]));
        }
    }
    vstd::seq_lib::lemma_sorted_unique(x, y, leq);
}

} // verus!
