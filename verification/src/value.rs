//! Property values and the conditions that queries put on them.
use crate::text::{
    label_relation, label_relation_flips, label_relation_same, labels_relation,
    labels_relation_same, relate_labels, Relation,
};
use vstd::prelude::*;
use vstd::string::*;

verus! {

/// A property value; `None` inside a kind is a null of that kind. A floating-point value is
/// held as an integer that orders as the value does.
#[derive(Debug, Clone)]
pub enum ScalarValue {
    Null,
    Boolean(Option<bool>),
    Int8(Option<i8>),
    Int16(Option<i16>),
    Int32(Option<i32>),
    Int64(Option<i64>),
    UInt8(Option<u8>),
    UInt16(Option<u16>),
    UInt32(Option<u32>),
    UInt64(Option<u64>),
    Float32(Option<i32>),
    Float64(Option<i64>),
    String(Option<String>),
}

/// Where two numbers stand to each other.
pub open spec fn number_relation(a: int, b: int) -> Relation {
    if a < b {
        Relation::Before
    } else if a == b {
        Relation::Same
    } else {
        Relation::After
    }
}

/// The kind of a value together with its number, for values that have one.
pub open spec fn numeric(value: ScalarValue) -> Option<(int, int)> {
    match value {
        ScalarValue::Boolean(Some(b)) => Some(
            (
                0,
                if b {
                    1
                } else {
                    0
                },
            ),
        ),
        ScalarValue::Int8(Some(n)) => Some((1, n as int)),
        ScalarValue::Int16(Some(n)) => Some((2, n as int)),
        ScalarValue::Int32(Some(n)) => Some((3, n as int)),
        ScalarValue::Int64(Some(n)) => Some((4, n as int)),
        ScalarValue::UInt8(Some(n)) => Some((5, n as int)),
        ScalarValue::UInt16(Some(n)) => Some((6, n as int)),
        ScalarValue::UInt32(Some(n)) => Some((7, n as int)),
        ScalarValue::UInt64(Some(n)) => Some((8, n as int)),
        ScalarValue::Float32(Some(n)) => Some((9, n as int)),
        ScalarValue::Float64(Some(n)) => Some((10, n as int)),
        _ => None,
    }
}

/// Where two values of one kind stand to each other; values of different kinds, and nulls, do
/// not compare.
pub open spec fn value_relation(a: ScalarValue, b: ScalarValue) -> Option<Relation> {
    match (a, b) {
        (ScalarValue::String(Some(x)), ScalarValue::String(Some(y))) => Some(
            label_relation(x@, y@),
        ),
        _ => match (numeric(a), numeric(b)) {
            (Some((kind_a, x)), Some((kind_b, y))) => if kind_a == kind_b {
                Some(number_relation(x, y))
            } else {
                None
            },
            _ => None,
        },
    }
}

/// Whether a value is null, of whatever kind.
pub open spec fn is_null(value: ScalarValue) -> bool {
    match value {
        ScalarValue::String(Some(_)) => false,
        _ => numeric(value) is None,
    }
}

/// Whether a text has the shape of a pattern, in which `%` stands for any text and `_` for any
/// one character.
pub open spec fn like(text: Seq<char>, pattern: Seq<char>) -> bool
    decreases pattern.len(), text.len(),
{
    if pattern.len() == 0 {
        text.len() == 0
    } else if pattern[0] == '%' {
        like(text, pattern.drop_first()) || (text.len() > 0 && like(text.drop_first(), pattern))
    } else {
        text.len() > 0 && (pattern[0] == '_' || pattern[0] == text[0]) && like(
            text.drop_first(),
            pattern.drop_first(),
        )
    }
}

impl ScalarValue {
    /// The kind and number of a value that has one.
    fn number(&self) -> (result: Option<(u8, i128)>)
        ensures
            match result {
                Some((kind, n)) => numeric(*self) == Some((kind as int, n as int)),
                None => numeric(*self) is None,
            },
    {
        match self {
            ScalarValue::Boolean(Some(b)) => Some(
                (
                    0,
                    if *b {
                        1
                    } else {
                        0
                    },
                ),
            ),
            ScalarValue::Int8(Some(n)) => Some((1, *n as i128)),
            ScalarValue::Int16(Some(n)) => Some((2, *n as i128)),
            ScalarValue::Int32(Some(n)) => Some((3, *n as i128)),
            ScalarValue::Int64(Some(n)) => Some((4, *n as i128)),
            ScalarValue::UInt8(Some(n)) => Some((5, *n as i128)),
            ScalarValue::UInt16(Some(n)) => Some((6, *n as i128)),
            ScalarValue::UInt32(Some(n)) => Some((7, *n as i128)),
            ScalarValue::UInt64(Some(n)) => Some((8, *n as i128)),
            ScalarValue::Float32(Some(n)) => Some((9, *n as i128)),
            ScalarValue::Float64(Some(n)) => Some((10, *n as i128)),
            _ => None,
        }
    }

    /// Compares two values of one kind.
    pub fn relate(&self, other: &ScalarValue) -> (result: Option<Relation>)
        ensures
            result == value_relation(*self, *other),
    {
        match (self, other) {
            (ScalarValue::String(Some(x)), ScalarValue::String(Some(y))) => Some(
                relate_labels(x.as_str(), y.as_str()),
            ),
            _ => match (self.number(), other.number()) {
                (Some((kind_a, x)), Some((kind_b, y))) => if kind_a == kind_b {
                    if x < y {
                        Some(Relation::Before)
                    } else if x == y {
                        Some(Relation::Same)
                    } else {
                        Some(Relation::After)
                    }
                } else {
                    None
                },
                _ => None,
            },
        }
    }

    /// Whether the value is null, of whatever kind.
    pub fn is_null(&self) -> (result: bool)
        ensures
            result == is_null(*self),
    {
        match self {
            ScalarValue::String(Some(_)) => false,
            _ => self.number().is_none(),
        }
    }

    /// A copy of the value.
    pub fn copy(&self) -> (result: ScalarValue)
        ensures
            result == *self,
    {
        match self {
            ScalarValue::Null => ScalarValue::Null,
            ScalarValue::Boolean(x) => ScalarValue::Boolean(*x),
            ScalarValue::Int8(x) => ScalarValue::Int8(*x),
            ScalarValue::Int16(x) => ScalarValue::Int16(*x),
            ScalarValue::Int32(x) => ScalarValue::Int32(*x),
            ScalarValue::Int64(x) => ScalarValue::Int64(*x),
            ScalarValue::UInt8(x) => ScalarValue::UInt8(*x),
            ScalarValue::UInt16(x) => ScalarValue::UInt16(*x),
            ScalarValue::UInt32(x) => ScalarValue::UInt32(*x),
            ScalarValue::UInt64(x) => ScalarValue::UInt64(*x),
            ScalarValue::Float32(x) => ScalarValue::Float32(*x),
            ScalarValue::Float64(x) => ScalarValue::Float64(*x),
            ScalarValue::String(None) => ScalarValue::String(None),
            ScalarValue::String(Some(s)) => ScalarValue::String(Some(s.clone())),
        }
    }
}

/// The characters of a text.
fn characters(text: &str) -> (result: Vec<char>)
    ensures
        result@ == text@,
{
    broadcast use vstd::string::axiom_spec_iter, vstd::string::next_postcondition;

    let mut result: Vec<char> = Vec::new();
    let mut rest = text.chars();
    assert(text@ =~= result@ + vstd::std_specs::iter::IteratorSpec::remaining(&rest));
    loop
        invariant
            text@ == result@ + vstd::std_specs::iter::IteratorSpec::remaining(&rest),
            vstd::std_specs::iter::IteratorSpec::decrease(&rest) is Some,
        decreases vstd::std_specs::iter::IteratorSpec::decrease(&rest)->0,
    {
        let ghost todo = vstd::std_specs::iter::IteratorSpec::remaining(&rest);
        let ghost done = result@;
        match rest.next() {
            None => {
                assert(result@ =~= text@);
                return result;
            },
            Some(c) => {
                result.push(c);
                assert(todo =~= seq![c] + todo.drop_first());
                assert(done + todo =~= done.push(c) + todo.drop_first());
            },
        }
    }
}

/// Decides whether a text has the shape of a pattern.
pub fn matches_like(text: &str, pattern: &str) -> (result: bool)
    ensures
        result == like(text@, pattern@),
{
    let t = characters(text);
    let p = characters(pattern);
    // `row` tells, for every end of the pattern, whether the rest of the text has its shape.
    let mut row: Vec<bool> = Vec::new();
    let mut i: usize = t.len();
    let mut j: usize = 0;
    let mut only_any: usize = p.len();
    assert(t@.skip(t@.len() as int) =~= Seq::<char>::empty());
    // The ends of the pattern that the empty text fits: those made of `%` alone.
    while only_any > 0 && p[only_any - 1] == '%'
        invariant
            only_any <= p@.len(),
            t@.skip(t@.len() as int) == Seq::<char>::empty(),
            forall|k: int|
                only_any <= k <= p@.len() ==> #[trigger] like(t@.skip(t@.len() as int), p@.skip(k)),
        decreases only_any,
    {
        proof {
            let k = only_any - 1;
            assert(p@.skip(k)[0] == '%');
            assert(p@.skip(k).drop_first() =~= p@.skip(k + 1));
            assert(like(t@.skip(t@.len() as int), p@.skip(k + 1)));
        }
        only_any = only_any - 1;
    }
    proof {
        assert forall|k: int| 0 <= k < only_any implies !#[trigger] like(
            t@.skip(t@.len() as int),
            p@.skip(k),
        ) by {
            lemma_blank_like(p@, k, only_any - 1);
        }
    }
    while j < p.len()
        invariant
            j <= p@.len(),
            only_any <= p@.len(),
            row@.len() == j,
            forall|k: int| 0 <= k < j ==> (#[trigger] row@[k]) == (k >= only_any),
        decreases p.len() - j,
    {
        row.push(j >= only_any);
        j = j + 1;
    }
    row.push(true);
    while i > 0
        invariant
            i <= t@.len(),
            row@.len() == p@.len() + 1,
            forall|k: int|
                0 <= k <= p@.len() ==> (#[trigger] row@[k]) == like(t@.skip(i as int), p@.skip(k)),
        decreases i,
    {
        i = i - 1;
        let mut next: Vec<bool> = Vec::new();
        let mut k: usize = p.len();
        next.push(false);
        let ghost rest = t@.skip(i as int);
        proof {
            assert(rest.drop_first() =~= t@.skip(i + 1));
            assert(rest[0] == t@[i as int]);
            assert(p@.skip(p@.len() as int).len() == 0);
        }
        while k > 0
            invariant
                i < t@.len(),
                rest == t@.skip(i as int),
                rest.drop_first() == t@.skip(i + 1),
                rest[0] == t@[i as int],
                rest.len() > 0,
                k <= p@.len(),
                row@.len() == p@.len() + 1,
                next@.len() == p@.len() + 1 - k,
                forall|m: int|
                    0 <= m <= p@.len() ==> (#[trigger] row@[m]) == like(t@.skip(i + 1), p@.skip(m)),
                forall|m: int|
                    0 <= m < next@.len() ==> (#[trigger] next@[m]) == like(
                        rest,
                        p@.skip(p@.len() - m),
                    ),
            decreases k,
        {
            k = k - 1;
            proof {
                assert(p@.skip(k as int).drop_first() =~= p@.skip(k + 1));
                assert(p@.skip(k as int)[0] == p@[k as int]);
                assert(next@[next@.len() - 1] == like(rest, p@.skip(k + 1)));
                assert(row@[k + 1] == like(t@.skip(i + 1), p@.skip(k + 1)));
                assert(row@[k as int] == like(t@.skip(i + 1), p@.skip(k as int)));
            }
            let fits: bool = if p[k] == '%' {
                next[next.len() - 1] || row[k]
            } else {
                (p[k] == '_' || p[k] == t[i]) && row[k + 1]
            };
            next.push(fits);
        }
        let mut turned: Vec<bool> = Vec::new();
        let mut m: usize = next.len();
        while m > 0
            invariant
                rest == t@.skip(i as int),
                m <= next@.len(),
                next@.len() == p@.len() + 1,
                turned@.len() == next@.len() - m,
                forall|x: int|
                    0 <= x < next@.len() ==> (#[trigger] next@[x]) == like(
                        rest,
                        p@.skip(p@.len() - x),
                    ),
                forall|x: int|
                    0 <= x < turned@.len() ==> (#[trigger] turned@[x]) == like(rest, p@.skip(x)),
            decreases m,
        {
            m = m - 1;
            assert(next@[m as int] == like(rest, p@.skip(p@.len() - m)));
            turned.push(next[m]);
        }
        row = turned;
    }
    assert(t@.skip(0) =~= t@);
    assert(p@.skip(0) =~= p@);
    row[0]
}

proof fn lemma_blank_like(p: Seq<char>, k: int, stop: int)
    requires
        0 <= k <= stop < p.len(),
        p[stop] != '%',
    ensures
        !like(Seq::empty(), p.skip(k)),
    decreases stop - k,
{
    assert(p.skip(k)[0] == p[k]);
    assert(p.skip(k).drop_first() =~= p.skip(k + 1));
    if k < stop {
        lemma_blank_like(p, k + 1, stop);
    }
}

/// How a property is compared with the value or values of a predicate.
#[derive(Debug, Clone, Copy, PartialEq, Eq, Hash, Structural)]
pub enum ComparisonOp {
    Eq,
    Ne,
    Gt,
    Ge,
    Lt,
    Le,
    In,
    Like,
    NotLike,
    IsNull,
    IsNotNull,
}

/// Whether one of the candidates equals a value.
pub open spec fn among(value: ScalarValue, candidates: Seq<ScalarValue>) -> bool {
    exists|i: int|
        0 <= i < candidates.len() && value_relation(value, #[trigger] candidates[i]) == Some(
            Relation::Same,
        )
}

/// Whether a property value meets a condition. A null meets no condition but that of being
/// null.
pub open spec fn meets(
    value: ScalarValue,
    op: ComparisonOp,
    operand: ScalarValue,
    operands: Seq<ScalarValue>,
) -> bool {
    let relation = value_relation(value, operand);
    match op {
        ComparisonOp::IsNull => is_null(value),
        ComparisonOp::IsNotNull => !is_null(value),
        ComparisonOp::Eq => relation == Some(Relation::Same),
        ComparisonOp::Ne => relation == Some(Relation::Before) || relation == Some(Relation::After),
        ComparisonOp::Gt => relation == Some(Relation::After),
        ComparisonOp::Ge => relation == Some(Relation::After) || relation == Some(Relation::Same),
        ComparisonOp::Lt => relation == Some(Relation::Before),
        ComparisonOp::Le => relation == Some(Relation::Before) || relation == Some(Relation::Same),
        ComparisonOp::In => among(value, operands),
        ComparisonOp::Like => match (value, operand) {
            (ScalarValue::String(Some(text)), ScalarValue::String(Some(pattern))) => like(
                text@,
                pattern@,
            ),
            _ => false,
        },
        ComparisonOp::NotLike => match (value, operand) {
            (ScalarValue::String(Some(text)), ScalarValue::String(Some(pattern))) => !like(
                text@,
                pattern@,
            ),
            _ => false,
        },
    }
}

/// A null meets the condition of being null, and no other one.
pub proof fn nulls_meet_only_is_null(
    value: ScalarValue,
    op: ComparisonOp,
    operand: ScalarValue,
    operands: Seq<ScalarValue>,
)
    requires
        is_null(value),
    ensures
        meets(value, op, operand, operands) <==> op == ComparisonOp::IsNull,
{
}

/// Decides whether a property value meets a condition.
pub fn evaluate(
    value: &ScalarValue,
    op: ComparisonOp,
    operand: &ScalarValue,
    operands: &Vec<ScalarValue>,
) -> (result: bool)
    ensures
        result == meets(*value, op, *operand, operands@),
{
    match op {
        ComparisonOp::IsNull => value.is_null(),
        ComparisonOp::IsNotNull => !value.is_null(),
        ComparisonOp::In => {
            let mut i: usize = 0;
            while i < operands.len()
                invariant
                    op == ComparisonOp::In,
                    i <= operands@.len(),
                    forall|j: int|
                        0 <= j < i ==> value_relation(*value, #[trigger] operands@[j]) != Some(
                            Relation::Same,
                        ),
                decreases operands.len() - i,
            {
                match value.relate(&operands[i]) {
                    Some(Relation::Same) => {
                        assert(value_relation(*value, operands@[i as int]) == Some(Relation::Same));
                        assert(among(*value, operands@));
                        return true;
                    },
                    _ => {},
                }
                i = i + 1;
            }
            false
        },
        ComparisonOp::Like => match (value, operand) {
            (ScalarValue::String(Some(text)), ScalarValue::String(Some(pattern))) => matches_like(
                text.as_str(),
                pattern.as_str(),
            ),
            _ => false,
        },
        ComparisonOp::NotLike => match (value, operand) {
            (ScalarValue::String(Some(text)), ScalarValue::String(Some(pattern))) => !matches_like(
                text.as_str(),
                pattern.as_str(),
            ),
            _ => false,
        },
        _ => {
            match (op, value.relate(operand)) {
                (ComparisonOp::Eq, Some(Relation::Same)) => true,
                (ComparisonOp::Ne, Some(Relation::Before)) => true,
                (ComparisonOp::Ne, Some(Relation::After)) => true,
                (ComparisonOp::Gt, Some(Relation::After)) => true,
                (ComparisonOp::Ge, Some(Relation::After)) => true,
                (ComparisonOp::Ge, Some(Relation::Same)) => true,
                (ComparisonOp::Lt, Some(Relation::Before)) => true,
                (ComparisonOp::Le, Some(Relation::Before)) => true,
                (ComparisonOp::Le, Some(Relation::Same)) => true,
                _ => false,
            }
        },
    }
}

/// What a number has to be for a condition with another number to be met.
pub open spec fn numbers_meet(x: int, op: ComparisonOp, y: int) -> bool {
    match op {
        ComparisonOp::Eq => x == y,
        ComparisonOp::Ne => x != y,
        ComparisonOp::Gt => x > y,
        ComparisonOp::Ge => x >= y,
        ComparisonOp::Lt => x < y,
        ComparisonOp::Le => x <= y,
        _ => false,
    }
}

/// Whether a condition compares a value with another one.
pub open spec fn is_comparison(op: ComparisonOp) -> bool {
    op == ComparisonOp::Eq || op == ComparisonOp::Ne || op == ComparisonOp::Gt || op
        == ComparisonOp::Ge || op == ComparisonOp::Lt || op == ComparisonOp::Le
}

/// Signed numbers of one kind are compared as numbers.
pub proof fn signed_numbers_are_compared(
    a: (i8, i16, i32, i64),
    op: ComparisonOp,
    b: (i8, i16, i32, i64),
    others: Seq<ScalarValue>,
)
    requires
        is_comparison(op),
    ensures
        meets(ScalarValue::Int8(Some(a.0)), op, ScalarValue::Int8(Some(b.0)), others)
            == numbers_meet(a.0 as int, op, b.0 as int),
        meets(ScalarValue::Int16(Some(a.1)), op, ScalarValue::Int16(Some(b.1)), others)
            == numbers_meet(a.1 as int, op, b.1 as int),
        meets(ScalarValue::Int32(Some(a.2)), op, ScalarValue::Int32(Some(b.2)), others)
            == numbers_meet(a.2 as int, op, b.2 as int),
        meets(ScalarValue::Int64(Some(a.3)), op, ScalarValue::Int64(Some(b.3)), others)
            == numbers_meet(a.3 as int, op, b.3 as int),
{
}

/// Unsigned numbers of one kind are compared as numbers.
pub proof fn unsigned_numbers_are_compared(
    a: (u8, u16, u32, u64),
    op: ComparisonOp,
    b: (u8, u16, u32, u64),
    others: Seq<ScalarValue>,
)
    requires
        is_comparison(op),
    ensures
        meets(ScalarValue::UInt8(Some(a.0)), op, ScalarValue::UInt8(Some(b.0)), others)
            == numbers_meet(a.0 as int, op, b.0 as int),
        meets(ScalarValue::UInt16(Some(a.1)), op, ScalarValue::UInt16(Some(b.1)), others)
            == numbers_meet(a.1 as int, op, b.1 as int),
        meets(ScalarValue::UInt32(Some(a.2)), op, ScalarValue::UInt32(Some(b.2)), others)
            == numbers_meet(a.2 as int, op, b.2 as int),
        meets(ScalarValue::UInt64(Some(a.3)), op, ScalarValue::UInt64(Some(b.3)), others)
            == numbers_meet(a.3 as int, op, b.3 as int),
{
}

/// Floating-point values are compared as the integers that they are held as, and of two truth
/// values false is the lesser one.
pub proof fn floats_and_truth_values_are_compared(
    a: (i32, i64, bool),
    op: ComparisonOp,
    b: (i32, i64, bool),
    others: Seq<ScalarValue>,
)
    requires
        is_comparison(op),
    ensures
        meets(ScalarValue::Float32(Some(a.0)), op, ScalarValue::Float32(Some(b.0)), others)
            == numbers_meet(a.0 as int, op, b.0 as int),
        meets(ScalarValue::Float64(Some(a.1)), op, ScalarValue::Float64(Some(b.1)), others)
            == numbers_meet(a.1 as int, op, b.1 as int),
        meets(ScalarValue::Boolean(Some(a.2)), op, ScalarValue::Boolean(Some(b.2)), others) == (
        match op {
            ComparisonOp::Eq => a.2 == b.2,
            ComparisonOp::Ne => a.2 != b.2,
            ComparisonOp::Gt => a.2 && !b.2,
            ComparisonOp::Ge => a.2 || !b.2,
            ComparisonOp::Lt => !a.2 && b.2,
            ComparisonOp::Le => !a.2 || b.2,
            _ => false,
        }),
{
}

/// Whether one text stands before another: it is the beginning of the other one, or at the first
/// place where they differ it has the lesser character.
pub open spec fn stands_before(a: Seq<char>, b: Seq<char>) -> bool {
    exists|n: int|
        0 <= n <= a.len() && n < b.len() && #[trigger] a.take(n) == b.take(n) && (n == a.len()
            || a[n] < b[n])
}

proof fn lemma_label_before(a: Seq<char>, b: Seq<char>)
    ensures
        label_relation(a, b) == Relation::Before <==> stands_before(a, b),
    decreases a.len(),
{
    if a.len() == 0 {
        if b.len() > 0 {
            assert(a.take(0) =~= b.take(0));
        }
    } else if b.len() > 0 {
        let x = a.drop_first();
        let y = b.drop_first();
        lemma_label_before(x, y);
        if a[0] < b[0] {
            assert(a.take(0) =~= b.take(0));
        }
        if a[0] == b[0] && stands_before(x, y) {
            let n = choose|n: int|
                0 <= n <= x.len() && n < y.len() && #[trigger] x.take(n) == y.take(n) && (n
                    == x.len() || x[n] < y[n]);
            assert forall|i: int| 0 <= i < n + 1 implies a[i] == b[i] by {
                if i > 0 {
                    assert(x.take(n)[i - 1] == y.take(n)[i - 1]);
                }
            }
            assert(a.take(n + 1) =~= b.take(n + 1));
            if n < x.len() {
                assert(a[n + 1] == x[n] && b[n + 1] == y[n]);
            }
        }
        if stands_before(a, b) {
            let n = choose|n: int|
                0 <= n <= a.len() && n < b.len() && #[trigger] a.take(n) == b.take(n) && (n
                    == a.len() || a[n] < b[n]);
            if n > 0 {
                assert(a.take(n)[0] == b.take(n)[0]);
                assert forall|i: int| 0 <= i < n - 1 implies x[i] == y[i] by {
                    assert(a.take(n)[i + 1] == b.take(n)[i + 1]);
                }
                assert(x.take(n - 1) =~= y.take(n - 1));
                if n < a.len() {
                    assert(x[n - 1] == a[n] && y[n - 1] == b[n]);
                }
                assert(stands_before(x, y));
            }
        }
    }
}

/// Texts are compared character by character.
pub proof fn texts_are_compared(
    a: String,
    op: ComparisonOp,
    b: String,
    others: Seq<ScalarValue>,
)
    requires
        is_comparison(op),
    ensures
        meets(ScalarValue::String(Some(a)), op, ScalarValue::String(Some(b)), others) == (match op {
            ComparisonOp::Eq => a@ == b@,
            ComparisonOp::Ne => a@ != b@,
            ComparisonOp::Gt => stands_before(b@, a@),
            ComparisonOp::Ge => a@ == b@ || stands_before(b@, a@),
            ComparisonOp::Lt => stands_before(a@, b@),
            ComparisonOp::Le => a@ == b@ || stands_before(a@, b@),
            _ => false,
        }),
{
    lemma_label_before(a@, b@);
    lemma_label_before(b@, a@);
    label_relation_same(a@, b@);
    label_relation_flips(a@, b@);
}

/// Whether two values are of one kind and none of them is null.
pub open spec fn are_of_one_kind(a: ScalarValue, b: ScalarValue) -> bool {
    match (a, b) {
        (ScalarValue::Boolean(Some(_)), ScalarValue::Boolean(Some(_))) => true,
        (ScalarValue::Int8(Some(_)), ScalarValue::Int8(Some(_))) => true,
        (ScalarValue::Int16(Some(_)), ScalarValue::Int16(Some(_))) => true,
        (ScalarValue::Int32(Some(_)), ScalarValue::Int32(Some(_))) => true,
        (ScalarValue::Int64(Some(_)), ScalarValue::Int64(Some(_))) => true,
        (ScalarValue::UInt8(Some(_)), ScalarValue::UInt8(Some(_))) => true,
        (ScalarValue::UInt16(Some(_)), ScalarValue::UInt16(Some(_))) => true,
        (ScalarValue::UInt32(Some(_)), ScalarValue::UInt32(Some(_))) => true,
        (ScalarValue::UInt64(Some(_)), ScalarValue::UInt64(Some(_))) => true,
        (ScalarValue::Float32(Some(_)), ScalarValue::Float32(Some(_))) => true,
        (ScalarValue::Float64(Some(_)), ScalarValue::Float64(Some(_))) => true,
        (ScalarValue::String(Some(_)), ScalarValue::String(Some(_))) => true,
        _ => false,
    }
}

/// Of two values of one kind exactly one of the three holds: the first is less, equal or greater.
/// Being at least as great is being greater or equal, and is not being less; being at most as
/// great is being less or equal, and is not being greater. Exchanging the two exchanges less and
/// greater.
pub proof fn comparisons_agree(a: ScalarValue, b: ScalarValue, others: Seq<ScalarValue>)
    requires
        are_of_one_kind(a, b),
    ensures
        meets(a, ComparisonOp::Ne, b, others) == !meets(a, ComparisonOp::Eq, b, others),
        meets(a, ComparisonOp::Ge, b, others) == !meets(a, ComparisonOp::Lt, b, others),
        meets(a, ComparisonOp::Le, b, others) == !meets(a, ComparisonOp::Gt, b, others),
        meets(a, ComparisonOp::Ge, b, others) == (meets(a, ComparisonOp::Gt, b, others) || meets(
            a,
            ComparisonOp::Eq,
            b,
            others,
        )),
        meets(a, ComparisonOp::Le, b, others) == (meets(a, ComparisonOp::Lt, b, others) || meets(
            a,
            ComparisonOp::Eq,
            b,
            others,
        )),
        !(meets(a, ComparisonOp::Lt, b, others) && meets(a, ComparisonOp::Gt, b, others)),
        meets(a, ComparisonOp::Lt, b, others) == meets(b, ComparisonOp::Gt, a, others),
        meets(a, ComparisonOp::Eq, b, others) == meets(b, ComparisonOp::Eq, a, others),
{
    match (a, b) {
        (ScalarValue::String(Some(x)), ScalarValue::String(Some(y))) => {
            label_relation_flips(x@, y@);
        },
        _ => {},
    }
}

/// Values that are null or of different kinds meet no comparison.
pub proof fn other_values_do_not_compare(
    a: ScalarValue,
    op: ComparisonOp,
    b: ScalarValue,
    others: Seq<ScalarValue>,
)
    requires
        is_comparison(op),
        !are_of_one_kind(a, b),
    ensures
        !meets(a, op, b, others),
{
}

/// Exactly the nulls of the kinds, and the null without a kind, are null.
pub proof fn nulls_are_those_without_a_value(
    value: ScalarValue,
    operand: ScalarValue,
    others: Seq<ScalarValue>,
)
    ensures
        meets(value, ComparisonOp::IsNull, operand, others) == !are_of_one_kind(value, value),
        meets(value, ComparisonOp::IsNotNull, operand, others) == are_of_one_kind(value, value),
{
}

/// A value is among others exactly where it equals one of them.
pub proof fn membership_is_equality_with_one(
    value: ScalarValue,
    operand: ScalarValue,
    candidates: Seq<ScalarValue>,
    others: Seq<ScalarValue>,
)
    ensures
        meets(value, ComparisonOp::In, operand, candidates) <==> exists|i: int|
            0 <= i < candidates.len() && meets(
                value,
                ComparisonOp::Eq,
                #[trigger] candidates[i],
                others,
            ),
{
}

/// Whether a piece of a text is what a character of a pattern stands for: any text for `%`, any
/// one character for `_`, and else the character itself.
pub open spec fn fits_piece(piece: Seq<char>, wanted: char) -> bool {
    if wanted == '%' {
        true
    } else if wanted == '_' {
        piece.len() == 1
    } else {
        piece == seq![wanted]
    }
}

/// Pieces of a text, one after the other.
pub open spec fn joined(pieces: Seq<Seq<char>>) -> Seq<char>
    decreases pieces.len(),
{
    if pieces.len() == 0 {
        Seq::empty()
    } else {
        pieces[0] + joined(pieces.drop_first())
    }
}

/// Whether a text falls into pieces, one for each character of a pattern.
pub open spec fn falls_into(text: Seq<char>, pattern: Seq<char>, pieces: Seq<Seq<char>>) -> bool {
    &&& pieces.len() == pattern.len()
    &&& joined(pieces) == text
    &&& forall|i: int|
        #![trigger pieces[i]]
        0 <= i < pieces.len() ==> fits_piece(pieces[i], pattern[i])
}

proof fn lemma_pieces_of(text: Seq<char>, pattern: Seq<char>) -> (pieces: Seq<Seq<char>>)
    requires
        like(text, pattern),
    ensures
        falls_into(text, pattern, pieces),
    decreases pattern.len(), text.len(),
{
    if pattern.len() == 0 {
        assert(text =~= Seq::empty());
        Seq::empty()
    } else if pattern[0] == '%' && !like(text, pattern.drop_first()) {
        let rest = lemma_pieces_of(text.drop_first(), pattern);
        let pieces = rest.update(0, seq![text[0]] + rest[0]);
        assert(pieces.drop_first() =~= rest.drop_first());
        assert(joined(pieces) =~= seq![text[0]] + joined(rest));
        assert(seq![text[0]] + text.drop_first() =~= text);
        pieces
    } else {
        let first = if pattern[0] == '%' {
            Seq::empty()
        } else {
            seq![text[0]]
        };
        let left = if pattern[0] == '%' {
            text
        } else {
            text.drop_first()
        };
        let rest = lemma_pieces_of(left, pattern.drop_first());
        let pieces = seq![first] + rest;
        assert(pieces.drop_first() =~= rest);
        assert(first + left =~= text);
        assert forall|i: int|
            #![trigger pieces[i]]
            0 <= i < pieces.len() implies fits_piece(pieces[i], pattern[i]) by {
            if i > 0 {
                assert(pieces[i] == rest[i - 1] && pattern[i] == pattern.drop_first()[i - 1]);
            }
        }
        pieces
    }
}

proof fn lemma_pieces_fit(text: Seq<char>, pattern: Seq<char>, pieces: Seq<Seq<char>>)
    requires
        falls_into(text, pattern, pieces),
    ensures
        like(text, pattern),
    decreases pattern.len(), text.len(),
{
    if pattern.len() > 0 {
        let first = pieces[0];
        let rest = pieces.drop_first();
        assert(fits_piece(first, pattern[0]));
        assert(text =~= first + joined(rest));
        if pattern[0] == '%' && first.len() > 0 {
            let shorter = pieces.update(0, first.drop_first());
            assert(shorter.drop_first() =~= rest);
            assert(joined(shorter) =~= text.drop_first());
            assert forall|i: int|
                #![trigger shorter[i]]
                0 <= i < shorter.len() implies fits_piece(shorter[i], pattern[i]) by {
                assert(i == 0 || shorter[i] == pieces[i]);
            }
            lemma_pieces_fit(text.drop_first(), pattern, shorter);
        } else {
            let left = joined(rest);
            assert forall|i: int|
                #![trigger rest[i]]
                0 <= i < rest.len() implies fits_piece(rest[i], pattern.drop_first()[i]) by {
                assert(rest[i] == pieces[i + 1]);
            }
            lemma_pieces_fit(left, pattern.drop_first(), rest);
            if first.len() == 0 {
                assert(left =~= text);
            } else {
                assert(left =~= text.drop_first());
            }
        }
    }
}

/// A text has the shape of a pattern exactly where it falls into pieces that the characters of
/// the pattern stand for.
pub proof fn shapes_are_pieces(
    text: String,
    pattern: String,
    others: Seq<ScalarValue>,
)
    ensures
        ({
            let (t, p) = (ScalarValue::String(Some(text)), ScalarValue::String(Some(pattern)));
            let fits = exists|pieces: Seq<Seq<char>>| #[trigger]
                falls_into(text@, pattern@, pieces);
            &&& meets(t, ComparisonOp::Like, p, others) == fits
            &&& meets(t, ComparisonOp::NotLike, p, others) == !fits
        }),
{
    if like(text@, pattern@) {
        let pieces = lemma_pieces_of(text@, pattern@);
    } else {
        assert forall|pieces: Seq<Seq<char>>| !#[trigger] falls_into(text@, pattern@, pieces) by {
            if falls_into(text@, pattern@, pieces) {
                lemma_pieces_fit(text@, pattern@, pieces);
            }
        }
    }
}

/// Labels are ordered as texts are.
pub proof fn labels_are_ordered_as_texts(a: Seq<char>, b: Seq<char>)
    ensures
        label_relation(a, b) == Relation::Before <==> stands_before(a, b),
        label_relation(a, b) == Relation::After <==> stands_before(b, a),
        label_relation(a, b) == Relation::Same <==> a == b,
{
    lemma_label_before(a, b);
    lemma_label_before(b, a);
    label_relation_same(a, b);
    label_relation_flips(a, b);
}

/// Whether one list of labels stands before another: it is the beginning of the other one, or at
/// the first place where they differ it has the label that stands before.
pub open spec fn list_stands_before(a: Seq<Seq<char>>, b: Seq<Seq<char>>) -> bool {
    exists|n: int|
        0 <= n <= a.len() && n < b.len() && #[trigger] a.take(n) == b.take(n) && (n == a.len()
            || stands_before(a[n], b[n]))
}

/// Lists of labels are ordered label by label.
pub proof fn lists_are_ordered_label_by_label(a: Seq<Seq<char>>, b: Seq<Seq<char>>)
    ensures
        labels_relation(a, b) == Relation::Before <==> list_stands_before(a, b),
        labels_relation(a, b) == Relation::Same <==> a == b,
    decreases a.len(),
{
    labels_relation_same(a, b);
    if a.len() == 0 {
        if b.len() > 0 {
            assert(a.take(0) =~= b.take(0));
        }
    } else if b.len() > 0 {
        let (x, y) = (a.drop_first(), b.drop_first());
        lists_are_ordered_label_by_label(x, y);
        labels_are_ordered_as_texts(a[0], b[0]);
        if stands_before(a[0], b[0]) {
            assert(a.take(0) =~= b.take(0));
        }
        if a[0] == b[0] && list_stands_before(x, y) {
            let n = choose|n: int|
                0 <= n <= x.len() && n < y.len() && #[trigger] x.take(n) == y.take(n) && (n
                    == x.len() || stands_before(x[n], y[n]));
            assert forall|i: int| 0 <= i < n + 1 implies a[i] == b[i] by {
                if i > 0 {
                    assert(x.take(n)[i - 1] == y.take(n)[i - 1]);
                }
            }
            assert(a.take(n + 1) =~= b.take(n + 1));
        }
        if list_stands_before(a, b) {
            let n = choose|n: int|
                0 <= n <= a.len() && n < b.len() && #[trigger] a.take(n) == b.take(n) && (n
                    == a.len() || stands_before(a[n], b[n]));
            if n > 0 {
                assert(a.take(n)[0] == b.take(n)[0]);
                assert forall|i: int| 0 <= i < n - 1 implies x[i] == y[i] by {
                    assert(a.take(n)[i + 1] == b.take(n)[i + 1]);
                }
                assert(x.take(n - 1) =~= y.take(n - 1));
                if n < a.len() {
                    assert(x[n - 1] == a[n] && y[n - 1] == b[n]);
                }
                assert(list_stands_before(x, y));
            }
        }
    }
}

} // verus!
