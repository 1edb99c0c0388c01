//! Labels are compared by their characters. This module states that order on
//! sequences of characters, and on sequences of labels, and decides it.
use vstd::prelude::*;

verus! {

/// How one value stands to another in a total order.
#[derive(Debug, Clone, Copy, PartialEq, Eq, Structural)]
pub enum Relation {
    Before,
    Same,
    After,
}

impl Relation {
    /// The relation read from the other side.
    pub open spec fn flipped(self) -> Relation {
        match self {
            Relation::Before => Relation::After,
            Relation::Same => Relation::Same,
            Relation::After => Relation::Before,
        }
    }
}

/// Where two labels stand to each other in the lexicographic order of their characters.
pub open spec fn label_relation(a: Seq<char>, b: Seq<char>) -> Relation
    decreases a.len(),
{
    if a.len() == 0 {
        if b.len() == 0 {
            Relation::Same
        } else {
            Relation::Before
        }
    } else if b.len() == 0 {
        Relation::After
    } else if a[0] < b[0] {
        Relation::Before
    } else if a[0] > b[0] {
        Relation::After
    } else {
        label_relation(a.drop_first(), b.drop_first())
    }
}

/// The lexicographic order of sequences of labels.
pub open spec fn labels_relation(a: Seq<Seq<char>>, b: Seq<Seq<char>>) -> Relation
    decreases a.len(),
{
    if a.len() == 0 {
        if b.len() == 0 {
            Relation::Same
        } else {
            Relation::Before
        }
    } else if b.len() == 0 {
        Relation::After
    } else if label_relation(a[0], b[0]) == Relation::Same {
        labels_relation(a.drop_first(), b.drop_first())
    } else {
        label_relation(a[0], b[0])
    }
}

/// The labels of a vector, as sequences of characters.
pub open spec fn label_views(labels: Seq<String>) -> Seq<Seq<char>> {
    labels.map_values(|label: String| label@)
}

/// Only a label itself stands at its own place in the order.
pub proof fn label_relation_same(a: Seq<char>, b: Seq<char>)
    ensures
        label_relation(a, b) == Relation::Same <==> a == b,
    decreases a.len(),
{
    if a.len() > 0 && b.len() > 0 {
        label_relation_same(a.drop_first(), b.drop_first());
        if a[0] == b[0] && a.drop_first() == b.drop_first() {
            assert(a =~= seq![a[0]] + a.drop_first());
            assert(b =~= seq![b[0]] + b.drop_first());
        }
    } else if a.len() == 0 && b.len() == 0 {
        assert(a =~= b);
    }
}

/// Exchanging two labels flips their relation.
pub proof fn label_relation_flips(a: Seq<char>, b: Seq<char>)
    ensures
        label_relation(b, a) == label_relation(a, b).flipped(),
    decreases a.len(),
{
    if a.len() > 0 && b.len() > 0 {
        label_relation_flips(a.drop_first(), b.drop_first());
    }
}

/// The order of labels is transitive.
pub proof fn label_relation_transitive(a: Seq<char>, b: Seq<char>, c: Seq<char>)
    requires
        label_relation(a, b) == Relation::Before,
        label_relation(b, c) == Relation::Before,
    ensures
        label_relation(a, c) == Relation::Before,
    decreases a.len(),
{
    if a.len() > 0 && b.len() > 0 && c.len() > 0 {
        if a[0] == b[0] && b[0] == c[0] {
            label_relation_transitive(a.drop_first(), b.drop_first(), c.drop_first());
        }
    }
}

/// Only a sequence of labels itself stands at its own place in the order.
pub proof fn labels_relation_same(a: Seq<Seq<char>>, b: Seq<Seq<char>>)
    ensures
        labels_relation(a, b) == Relation::Same <==> a == b,
    decreases a.len(),
{
    if a.len() > 0 && b.len() > 0 {
        label_relation_same(a[0], b[0]);
        labels_relation_same(a.drop_first(), b.drop_first());
        if a[0] == b[0] && a.drop_first() == b.drop_first() {
            assert(a =~= seq![a[0]] + a.drop_first());
            assert(b =~= seq![b[0]] + b.drop_first());
        }
    } else if a.len() == 0 && b.len() == 0 {
        assert(a =~= b);
    }
}

/// Exchanging two sequences of labels flips their relation.
pub proof fn labels_relation_flips(a: Seq<Seq<char>>, b: Seq<Seq<char>>)
    ensures
        labels_relation(b, a) == labels_relation(a, b).flipped(),
    decreases a.len(),
{
    if a.len() > 0 && b.len() > 0 {
        label_relation_flips(a[0], b[0]);
        labels_relation_flips(a.drop_first(), b.drop_first());
    }
}

/// The order of sequences of labels is transitive.
pub proof fn labels_relation_transitive(
    a: Seq<Seq<char>>,
    b: Seq<Seq<char>>,
    c: Seq<Seq<char>>,
)
    requires
        labels_relation(a, b) == Relation::Before,
        labels_relation(b, c) == Relation::Before,
    ensures
        labels_relation(a, c) == Relation::Before,
    decreases a.len(),
{
    if a.len() > 0 && b.len() > 0 && c.len() > 0 {
        label_relation_same(a[0], b[0]);
        label_relation_same(b[0], c[0]);
        label_relation_same(a[0], c[0]);
        if a[0] == b[0] && b[0] == c[0] {
            labels_relation_transitive(a.drop_first(), b.drop_first(), c.drop_first());
        } else if a[0] != b[0] && b[0] != c[0] {
            label_relation_transitive(a[0], b[0], c[0]);
        }
    }
}

/// Decides the order of two labels.
pub fn relate_labels(a: &str, b: &str) -> (result: Relation)
    ensures
        result == label_relation(a@, b@),
{
    broadcast use vstd::string::axiom_spec_iter, vstd::string::next_postcondition;

    let mut left = a.chars();
    let mut right = b.chars();
    loop
        invariant
            label_relation(a@, b@) == label_relation(
                vstd::std_specs::iter::IteratorSpec::remaining(&left),
                vstd::std_specs::iter::IteratorSpec::remaining(&right),
            ),
            vstd::std_specs::iter::IteratorSpec::decrease(&left) is Some,
        decreases vstd::std_specs::iter::IteratorSpec::decrease(&left)->0,
    {
        match (left.next(), right.next()) {
            (None, None) => {
                return Relation::Same;
            },
            (None, Some(_)) => {
                return Relation::Before;
            },
            (Some(_), None) => {
                return Relation::After;
            },
            (Some(c), Some(d)) => {
                if c < d {
                    return Relation::Before;
                }
                if c > d {
                    return Relation::After;
                }
            },
        }
    }
}

/// Decides the order of two sequences of labels.
pub fn relate_label_lists(a: &Vec<String>, b: &Vec<String>) -> (result: Relation)
    ensures
        result == labels_relation(label_views(a@), label_views(b@)),
{
    let mut i: usize = 0;
    assert(label_views(a@).skip(0) =~= label_views(a@));
    assert(label_views(b@).skip(0) =~= label_views(b@));
    loop
        invariant
            i <= a.len(),
            i <= b.len(),
            labels_relation(label_views(a@), label_views(b@)) == labels_relation(
                label_views(a@).skip(i as int),
                label_views(b@).skip(i as int),
            ),
        decreases a.len() - i,
    {
        if i == a.len() {
            if i == b.len() {
                return Relation::Same;
            }
            return Relation::Before;
        }
        if i == b.len() {
            return Relation::After;
        }
        let relation = relate_labels(a[i].as_str(), b[i].as_str());
        proof {
            assert(label_views(a@).skip(i as int)[0] == a@[i as int]@);
            assert(label_views(b@).skip(i as int)[0] == b@[i as int]@);
            assert(label_views(a@).skip(i as int).drop_first() =~= label_views(a@).skip(i + 1));
            assert(label_views(b@).skip(i as int).drop_first() =~= label_views(b@).skip(i + 1));
        }
        match relation {
            Relation::Same => {
                i = i + 1;
            },
            other => {
                return other;
            },
        }
    }
}

/// Decides whether two sequences of labels are equal.
pub fn same_label_lists(a: &Vec<String>, b: &Vec<String>) -> (result: bool)
    ensures
        result == (label_views(a@) == label_views(b@)),
{
    if a.len() != b.len() {
        assert(label_views(a@).len() != label_views(b@).len());
        return false;
    }
    let mut i: usize = 0;
    while i < a.len()
        invariant
            i <= a.len(),
            a.len() == b.len(),
            forall|j: int| 0 <= j < i ==> (#[trigger] a@[j])@ == b@[j]@,
        decreases a.len() - i,
    {
        if a[i] != b[i] {
            assert(label_views(a@)[i as int] != label_views(b@)[i as int]);
            return false;
        }
        i = i + 1;
    }
    assert(label_views(a@) =~= label_views(b@));
    true
}

/// A copy of a sequence of labels.
pub fn copy_labels(labels: &Vec<String>) -> (result: Vec<String>)
    ensures
        result@ == labels@,
{
    let mut result: Vec<String> = Vec::new();
    let mut i: usize = 0;
    while i < labels.len()
        invariant
            i <= labels.len(),
            result@ == labels@.take(i as int),
        decreases labels.len() - i,
    {
        result.push(labels[i].clone());
        assert(labels@.take(i + 1) =~= labels@.take(i as int).push(labels@[i as int]));
        i = i + 1;
    }
    assert(labels@.take(labels@.len() as int) =~= labels@);
    result
}

/// A copy of a sequence of labels, last one first.
pub fn reversed_labels(labels: &Vec<String>) -> (result: Vec<String>)
    ensures
        result@ == labels@.reverse(),
{
    let mut result: Vec<String> = Vec::new();
    let mut i: usize = labels.len();
    while i > 0
        invariant
            i <= labels.len(),
            result@.len() == labels.len() - i,
            forall|j: int| 0 <= j < result@.len() ==> #[trigger] result@[j] == labels@[labels.len() - 1 - j],
        decreases i,
    {
        i = i - 1;
        result.push(labels[i].clone());
    }
    assert(result@ =~= labels@.reverse());
    result
}

/// The lower-case letter of an upper-case ASCII letter, and any other character itself.
pub open spec fn ascii_lower(c: char) -> char {
    if 'A' <= c && c <= 'Z' {
        ((c as u32) + 32) as char
    } else {
        c
    }
}

/// A label with its ASCII letters in lower case.
pub open spec fn ascii_lower_label(label: Seq<char>) -> Seq<char> {
    label.map_values(|c: char| ascii_lower(c))
}

/// Calls `str::to_ascii_lowercase`, which puts every ASCII letter of the label in lower case
/// and keeps every other character as it is.
#[verifier::external_body]
pub(crate) fn to_ascii_lowercase(label: &str) -> (result: String)
    ensures
        result@ == ascii_lower_label(label@),
{
    label.to_ascii_lowercase()
}

/// Calls `str::eq_ignore_ascii_case`, which compares two labels with their ASCII letters in
/// lower case.
#[verifier::external_body]
pub(crate) fn eq_ignore_ascii_case(a: &str, b: &str) -> (result: bool)
    ensures
        result == (ascii_lower_label(a@) == ascii_lower_label(b@)),
{
    a.eq_ignore_ascii_case(b)
}

/// A label in lower case by the rules of Unicode, as `str::to_lowercase` gives it.
pub uninterp spec fn lowercase(label: Seq<char>) -> Seq<char>;

/// Calls `str::to_lowercase`. Its result depends on the label alone; the Unicode tables that
/// give it are not written out here.
#[verifier::external_body]
pub(crate) fn to_lowercase(label: &str) -> (result: String)
    ensures
        result@ == lowercase(label@),
{
    label.to_lowercase()
}

/// Decides whether a label is the given text.
pub fn is_text(label: &str, text: &str) -> (result: bool)
    ensures
        result == (label@ == text@),
{
    let relation = relate_labels(label, text);
    proof {
        label_relation_same(label@, text@);
    }
    match relation {
        Relation::Same => true,
        _ => false,
    }
}

/// A digit as a character.
pub open spec fn digit(d: nat) -> char {
    (('0' as u32) + d) as char
}

/// A number in decimal notation.
pub open spec fn decimal(n: nat) -> Seq<char>
    decreases n,
{
    if n < 10 {
        seq![digit(n)]
    } else {
        decimal(n / 10).push(digit(n % 10))
    }
}

/// Appends a number in decimal notation.
pub fn append_decimal(out: &mut String, n: u64)
    ensures
        final(out)@ == old(out)@ + decimal(n as nat),
    decreases n,
{
    if n >= 10 {
        append_decimal(out, n / 10);
    }
    let last: u64 = n % 10;
    let ghost before = out@;
    proof {
        reveal_strlit("0");
        reveal_strlit("1");
        reveal_strlit("2");
        reveal_strlit("3");
        reveal_strlit("4");
        reveal_strlit("5");
        reveal_strlit("6");
        reveal_strlit("7");
        reveal_strlit("8");
        reveal_strlit("9");
    }
    let text: &str = if last == 0 {
        "0"
    } else if last == 1 {
        "1"
    } else if last == 2 {
        "2"
    } else if last == 3 {
        "3"
    } else if last == 4 {
        "4"
    } else if last == 5 {
        "5"
    } else if last == 6 {
        "6"
    } else if last == 7 {
        "7"
    } else if last == 8 {
        "8"
    } else {
        "9"
    };
    assert(text@ =~= seq![digit(last as nat)]);
    out.append(text);
    if n >= 10 {
        assert(out@ =~= old(out)@ + decimal((n / 10) as nat).push(digit((n % 10) as nat)));
    }
}

/// The number that digits are, the first of them being worth most.
pub open spec fn number_of(digits: Seq<char>) -> int
    decreases digits.len(),
{
    if digits.len() == 0 {
        0
    } else {
        10 * number_of(digits.drop_last()) + (digits.last() as int - '0' as int)
    }
}

/// The decimal notation of a number consists of digits that are the number, and begins with no
/// zero unless it is one digit.
pub proof fn decimals_are_their_numbers(n: nat)
    ensures
        number_of(decimal(n)) == n,
        decimal(n).len() > 0,
        decimal(n).len() > 1 ==> decimal(n)[0] != '0',
        forall|i: int|
            #![trigger decimal(n)[i]]
            0 <= i < decimal(n).len() ==> '0' <= decimal(n)[i] <= '9',
    decreases n,
{
    if n < 10 {
        let one = decimal(n);
        assert(one.drop_last() =~= Seq::<char>::empty());
        assert(number_of(one.drop_last()) == 0);
        assert(one.last() as int - '0' as int == n);
    } else {
        decimals_are_their_numbers(n / 10);
        let all = decimal(n);
        assert(all.drop_last() =~= decimal(n / 10));
        assert(all.last() as int - '0' as int == n % 10);
        if decimal(n / 10).len() == 1 {
            let first = decimal(n / 10);
            assert(first.drop_last() =~= Seq::<char>::empty());
            assert(number_of(first.drop_last()) == 0);
            assert(all[0] == first[0]);
        }
        assert forall|i: int| #![trigger all[i]] 0 <= i < all.len() implies '0' <= all[i] <= '9' by {
            if i < all.len() - 1 {
                assert(all[i] == decimal(n / 10)[i]);
            }
        }
    }
}

/// In lower case no ASCII letter is a capital one. A capital one becomes the letter that stands
/// as far behind the small `a` as it does behind the capital one; any other character stays.
pub proof fn lower_case_keeps_the_letter(c: char)
    ensures
        !('A' <= ascii_lower(c) <= 'Z'),
        'A' <= c <= 'Z' ==> ascii_lower(c) as int - 'a' as int == c as int - 'A' as int,
        !('A' <= c <= 'Z') ==> ascii_lower(c) == c,
        ascii_lower(ascii_lower(c)) == ascii_lower(c),
{
}

} // verus!
