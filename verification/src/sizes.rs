//! How many bytes keys take where they are written down: every number and every length takes
//! eight, and every text its bytes.
use crate::pattern::{AltKey, PathPattern, StarStatKey};
use crate::text::label_views;
use vstd::prelude::*;
use vstd::string::*;
use vstd::utf8::encode_utf8;

verus! {

/// How many bytes a number or a length takes.
pub const LEN_U64: usize = 8;

/// How many bytes a text takes.
pub open spec fn text_size(text: Seq<char>) -> nat {
    8 + encode_utf8(text).len()
}

/// How many bytes texts take, without their number.
pub open spec fn texts_size(texts: Seq<Seq<char>>) -> nat
    decreases texts.len(),
{
    if texts.len() == 0 {
        0
    } else {
        texts_size(texts.drop_last()) + text_size(texts.last())
    }
}

/// How many bytes a text takes.
pub fn string_bincode_size(s: &str) -> (result: usize)
    requires
        text_size(s@) <= usize::MAX,
    ensures
        result == text_size(s@),
{
    LEN_U64 + s.as_bytes().len()
}

proof fn lemma_texts_grow(texts: Seq<Seq<char>>, n: int)
    requires
        0 <= n <= texts.len(),
    ensures
        texts_size(texts.take(n)) <= texts_size(texts),
    decreases texts.len(),
{
    if n == texts.len() {
        assert(texts.take(n) =~= texts);
    } else {
        assert(texts.drop_last().take(n) =~= texts.take(n));
        lemma_texts_grow(texts.drop_last(), n);
    }
}

fn strings_size(values: &Vec<String>) -> (result: usize)
    requires
        texts_size(label_views(values@)) <= usize::MAX,
    ensures
        result == texts_size(label_views(values@)),
{
    let ghost texts = label_views(values@);
    let mut size: usize = 0;
    let mut i: usize = 0;
    assert(texts.take(0) =~= Seq::empty());
    while i < values.len()
        invariant
            texts == label_views(values@),
            texts_size(texts) <= usize::MAX,
            i <= values@.len(),
            size == texts_size(texts.take(i as int)),
        decreases values.len() - i,
    {
        proof {
            assert(texts.take(i + 1).drop_last() =~= texts.take(i as int));
            assert(texts.take(i + 1).last() == values@[i as int]@);
            lemma_texts_grow(texts, i + 1);
        }
        size = size + string_bincode_size(values[i].as_str());
        i = i + 1;
    }
    assert(texts.take(i as int) =~= texts);
    size
}

/// How many bytes the key of a path takes: its labels in both directions.
pub open spec fn alt_key_size(key: AltKey) -> nat {
    2 * (8 + texts_size(label_views(key.raw@)))
}

/// How many bytes the key of a path takes.
pub fn alt_key_serialized_size(alt_key: &AltKey) -> (result: usize)
    requires
        alt_key_size(*alt_key) <= usize::MAX,
    ensures
        result == alt_key_size(*alt_key),
{
    (LEN_U64 + strings_size(&alt_key.raw)) * 2
}

proof fn lemma_texts_sum(a: Seq<Seq<char>>, b: Seq<Seq<char>>)
    ensures
        texts_size(a + b) == texts_size(a) + texts_size(b),
    decreases b.len(),
{
    if b.len() == 0 {
        assert(a + b =~= a);
    } else {
        assert((a + b).drop_last() =~= a + b.drop_last());
        lemma_texts_sum(a, b.drop_last());
    }
}

proof fn lemma_reversed_size(texts: Seq<Seq<char>>)
    ensures
        texts_size(texts.reverse()) == texts_size(texts),
    decreases texts.len(),
{
    if texts.len() > 0 {
        let last = seq![texts.last()];
        assert(texts.reverse() =~= last + texts.drop_last().reverse());
        lemma_texts_sum(last, texts.drop_last().reverse());
        lemma_reversed_size(texts.drop_last());
        assert(last.drop_last() =~= Seq::empty());
        assert(texts_size(last.drop_last()) == 0);
    } else {
        assert(texts.reverse() =~= texts);
    }
}

/// The labels of a path take as many bytes in the direction that stands for both as in the one
/// that they came in.
pub proof fn both_directions_take_the_same(key: AltKey)
    requires
        key.wf(),
    ensures
        texts_size(label_views(key.normalized@)) == texts_size(label_views(key.raw@)),
        alt_key_size(key) == (8 + texts_size(label_views(key.raw@))) + (8 + texts_size(
            label_views(key.normalized@),
        )),
{
    lemma_reversed_size(label_views(key.raw@));
}

/// How many bytes an arm takes.
pub open spec fn arm_size(arm: PathPattern) -> nat {
    16 + texts_size(arm@.vs) + texts_size(arm@.es)
}

/// How many bytes arms take, without their number.
pub open spec fn arms_size(arms: Seq<PathPattern>) -> nat
    decreases arms.len(),
{
    if arms.len() == 0 {
        0
    } else {
        arms_size(arms.drop_last()) + arm_size(arms.last())
    }
}

proof fn lemma_arms_grow(arms: Seq<PathPattern>, n: int)
    requires
        0 <= n <= arms.len(),
    ensures
        arms_size(arms.take(n)) <= arms_size(arms),
    decreases arms.len(),
{
    if n == arms.len() {
        assert(arms.take(n) =~= arms);
    } else {
        assert(arms.drop_last().take(n) =~= arms.take(n));
        lemma_arms_grow(arms.drop_last(), n);
    }
}

/// How many bytes the key of a star takes: its label, three numbers, and its arms.
pub open spec fn star_key_size(key: StarStatKey) -> nat {
    text_size(key.center_label@) + 24 + arms_size(key.arms@)
}

/// How many bytes the key of a star takes.
pub fn star_key_serialized_size(star_key: &StarStatKey) -> (result: usize)
    requires
        star_key_size(*star_key) <= usize::MAX,
    ensures
        result == star_key_size(*star_key),
{
    let ghost arms = star_key.arms@;
    let head: usize = string_bincode_size(star_key.center_label.as_str()) + LEN_U64 + LEN_U64
        + LEN_U64;
    let mut total: usize = head;
    let mut i: usize = 0;
    assert(arms.take(0) =~= Seq::empty());
    while i < star_key.arms.len()
        invariant
            arms == star_key.arms@,
            star_key_size(*star_key) <= usize::MAX,
            head == text_size(star_key.center_label@) + 24,
            i <= arms.len(),
            total == head + arms_size(arms.take(i as int)),
        decreases star_key.arms.len() - i,
    {
        proof {
            assert(arms.take(i + 1).drop_last() =~= arms.take(i as int));
            assert(arms.take(i + 1).last() == arms[i as int]);
            lemma_arms_grow(arms, i + 1);
        }
        let arm: &PathPattern = &star_key.arms[i];
        total = total + LEN_U64 + strings_size(&arm.vs) + LEN_U64 + strings_size(&arm.es);
        i = i + 1;
    }
    assert(arms.take(i as int) =~= arms);
    total
}

/// Texts take what each of them takes, one after the other: the bytes of the text, and eight for
/// their number.
pub proof fn sizes_add_up(a: Seq<Seq<char>>, b: Seq<Seq<char>>, text: Seq<char>)
    ensures
        texts_size(a + b) == texts_size(a) + texts_size(b),
        texts_size(seq![text]) == 8 + encode_utf8(text).len(),
        texts_size(Seq::<Seq<char>>::empty()) == 0,
{
    lemma_texts_sum(a, b);
    let one = seq![text];
    assert(one.drop_last() =~= Seq::<Seq<char>>::empty());
    assert(texts_size(one.drop_last()) == 0);
    assert(one.last() == text);
}

/// Arms take what each of them takes, one after the other: its labels, and eight bytes for the
/// number of those of its vertices, and eight for that of its edges.
pub proof fn arm_sizes_add_up(a: Seq<PathPattern>, b: Seq<PathPattern>, arm: PathPattern)
    ensures
        arms_size(a + b) == arms_size(a) + arms_size(b),
        arms_size(seq![arm]) == 8 + texts_size(arm@.vs) + 8 + texts_size(arm@.es),
        arms_size(Seq::<PathPattern>::empty()) == 0,
    decreases b.len(),
{
    if b.len() == 0 {
        assert(a + b =~= a);
    } else {
        arm_sizes_add_up(a, b.drop_last(), arm);
        assert((a + b).drop_last() =~= a + b.drop_last());
        assert((a + b).last() == b.last());
    }
    let one = seq![arm];
    assert(one.drop_last() =~= Seq::<PathPattern>::empty());
    assert(arms_size(one.drop_last()) == 0);
    assert(one.last() == arm);
}

} // verus!
