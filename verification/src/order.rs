//! Stable sorting of values that have a total preorder.
use vstd::prelude::*;

verus! {

/// Values that can be brought into order. Two values may stand at the same place.
pub trait Ordered: Sized {
    /// Whether this value may stand before the other one.
    spec fn at_or_before(self, other: Self) -> bool;

    /// Of two values, one may stand before the other.
    proof fn order_is_total(a: Self, b: Self)
        ensures
            a.at_or_before(b) || b.at_or_before(a),
    ;

    /// The order is transitive.
    proof fn order_is_transitive(a: Self, b: Self, c: Self)
        requires
            a.at_or_before(b),
            b.at_or_before(c),
        ensures
            a.at_or_before(c),
    ;

    /// Decides the order.
    fn may_precede(&self, other: &Self) -> (result: bool)
        ensures
            result == self.at_or_before(*other),
    ;
}

/// Whether every value may stand before all of those behind it.
pub open spec fn in_order<T: Ordered>(s: Seq<T>) -> bool {
    forall|i: int, j: int|
        #![trigger s[i], s[j]]
        0 <= i < j < s.len() ==> s[i].at_or_before(s[j])
}

/// An ordered sequence with one more value, put behind all that may precede it.
pub open spec fn placed<T: Ordered>(s: Seq<T>, x: T) -> Seq<T>
    decreases s.len(),
{
    if s.len() == 0 || s.last().at_or_before(x) {
        s.push(x)
    } else {
        placed(s.drop_last(), x).push(s.last())
    }
}

/// The values in order; those that stand at the same place keep the order they had.
pub open spec fn sorted<T: Ordered>(s: Seq<T>) -> Seq<T>
    decreases s.len(),
{
    if s.len() == 0 {
        s
    } else {
        placed(sorted(s.drop_last()), s.last())
    }
}

proof fn lemma_placed<T: Ordered>(s: Seq<T>, x: T)
    requires
        in_order(s),
    ensures
        in_order(placed(s, x)),
        placed(s, x).to_multiset() == s.to_multiset().insert(x),
        placed(s, x).len() == s.len() + 1,
        forall|y: T|
            #![trigger placed(s, x).contains(y)]
            #![trigger s.contains(y)]
            placed(s, x).contains(y) <==> s.contains(y) || y == x,
    decreases s.len(),
{
    broadcast use vstd::seq_lib::group_to_multiset_ensures;

    if s.len() == 0 || s.last().at_or_before(x) {
        assert forall|i: int, j: int|
            #![trigger s.push(x)[i], s.push(x)[j]]
            0 <= i < j < s.len() + 1 implies s.push(x)[i].at_or_before(s.push(x)[j]) by {
            if j == s.len() && i < s.len() - 1 {
                assert(s[i].at_or_before(s[s.len() - 1]));
                T::order_is_transitive(s[i], s.last(), x);
            }
        }
        assert forall|y: T|
            #![trigger s.push(x).contains(y)]
            #![trigger s.contains(y)]
            s.push(x).contains(y) <==> s.contains(y) || y == x by {
            if s.contains(y) {
                let i = choose|i: int| 0 <= i < s.len() && s[i] == y;
                assert(s.push(x)[i] == y);
            }
            assert(s.push(x)[s.len() as int] == x);
        }
    } else {
        let t = placed(s.drop_last(), x);
        let last = s.last();
        T::order_is_total(last, x);
        lemma_placed(s.drop_last(), x);
        assert forall|i: int, j: int|
            #![trigger t.push(last)[i], t.push(last)[j]]
            0 <= i < j < t.len() + 1 implies t.push(last)[i].at_or_before(t.push(last)[j]) by {
            if j == t.len() {
                assert(t.contains(t[i]));
                if t[i] != x {
                    assert(s.drop_last().contains(t[i]));
                    let k = choose|k: int| 0 <= k < s.len() - 1 && s.drop_last()[k] == t[i];
                    assert(s[k].at_or_before(s[s.len() - 1]));
                }
            }
        }
        assert(s =~= s.drop_last().push(last));
        assert(t.push(last).to_multiset() =~= s.to_multiset().insert(x));
        assert forall|y: T|
            #![trigger t.push(last).contains(y)]
            #![trigger s.contains(y)]
            t.push(last).contains(y) <==> s.contains(y) || y == x by {
            if t.push(last).contains(y) {
                let i = choose|i: int| 0 <= i < t.len() + 1 && t.push(last)[i] == y;
                if i == t.len() {
                    assert(s[s.len() - 1] == y);
                } else {
                    assert(t.contains(y));
                    if y != x {
                        assert(s.drop_last().contains(y));
                        let k = choose|k: int| 0 <= k < s.len() - 1 && s.drop_last()[k] == y;
                        assert(s[k] == y);
                    }
                }
            }
            if s.contains(y) || y == x {
                if y == last {
                    assert(t.push(last)[t.len() as int] == y);
                } else {
                    if s.contains(y) {
                        let k = choose|k: int| 0 <= k < s.len() && s[k] == y;
                        assert(s.drop_last()[k] == y);
                        assert(s.drop_last().contains(y));
                    }
                    assert(t.contains(y));
                    let i = choose|i: int| 0 <= i < t.len() && t[i] == y;
                    assert(t.push(last)[i] == y);
                }
            }
        }
    }
}

/// Sorting gives the same values, in order.
pub proof fn sorting_orders_the_values<T: Ordered>(s: Seq<T>)
    ensures
        in_order(sorted(s)),
        sorted(s).to_multiset() == s.to_multiset(),
        sorted(s).len() == s.len(),
        forall|x: T|
            #![trigger sorted(s).contains(x)]
            #![trigger s.contains(x)]
            sorted(s).contains(x) <==> s.contains(x),
    decreases s.len(),
{
    broadcast use vstd::seq_lib::group_to_multiset_ensures;

    if s.len() > 0 {
        sorting_orders_the_values(s.drop_last());
        lemma_placed(sorted(s.drop_last()), s.last());
        assert(s =~= s.drop_last().push(s.last()));
        assert forall|x: T|
            #![trigger sorted(s).contains(x)]
            #![trigger s.contains(x)]
            sorted(s).contains(x) <==> s.contains(x) by {
            if s.contains(x) {
                let i = choose|i: int| 0 <= i < s.len() && s[i] == x;
                if i < s.len() - 1 {
                    assert(s.drop_last()[i] == x);
                    assert(s.drop_last().contains(x));
                }
                assert(sorted(s.drop_last()).contains(x) || x == s.last());
            }
            if sorted(s).contains(x) {
                if x == s.last() {
                    assert(s[s.len() - 1] == x);
                } else {
                    assert(s.drop_last().contains(x));
                    let i = choose|i: int| 0 <= i < s.len() - 1 && s.drop_last()[i] == x;
                    assert(s[i] == x);
                }
            }
        }
    }
}

/// Sorting leaves values alone that are in order already.
pub proof fn sorting_keeps_order<T: Ordered>(s: Seq<T>)
    requires
        in_order(s),
    ensures
        sorted(s) == s,
    decreases s.len(),
{
    if s.len() > 0 {
        sorting_keeps_order(s.drop_last());
        if s.len() > 1 {
            assert(s[s.len() - 2].at_or_before(s[s.len() - 1]));
        }
        assert(sorted(s) =~= s);
    }
}

/// Puts a value into an ordered vector, behind all that may precede it.
fn place<T: Ordered>(values: &mut Vec<T>, x: T)
    ensures
        final(values)@ == placed(old(values)@, x),
{
    let mut i: usize = values.len();
    let ghost tail = Seq::<T>::empty();
    assert(values@.take(i as int) =~= values@);
    assert(placed(values@, x) + tail =~= placed(values@, x));
    while i > 0 && !values[i - 1].may_precede(&x)
        invariant
            i <= values@.len(),
            values@ == old(values)@,
            tail == values@.skip(i as int),
            placed(values@, x) == placed(values@.take(i as int), x) + tail,
        decreases i,
    {
        proof {
            let head = values@.take(i as int);
            assert(head.drop_last() =~= values@.take(i - 1));
            assert(head.last() == values@[i - 1]);
            let further = values@.skip(i - 1);
            assert(placed(head, x) + tail =~= placed(values@.take(i - 1), x) + further);
            tail = further;
        }
        i = i - 1;
    }
    values.insert(i, x);
    assert(values@ =~= old(values)@.take(i as int).push(x) + tail);
}

/// Brings values into order, stably.
pub fn sort<T: Ordered>(values: Vec<T>) -> (result: Vec<T>)
    ensures
        result@ == sorted(values@),
{
    let mut rest = values;
    let mut result: Vec<T> = Vec::new();
    let mut todo: Vec<T> = Vec::new();
    // The values are taken from the end, so they are turned round first.
    while rest.len() > 0
        invariant
            rest@.len() + todo@.len() == values@.len(),
            rest@ == values@.take(rest@.len() as int),
            todo@ == values@.skip(rest@.len() as int).reverse(),
        decreases rest.len(),
    {
        let ghost n = rest@.len();
        let x = rest.pop().unwrap();
        todo.push(x);
        assert(values@.skip(n - 1).reverse() =~= values@.skip(n as int).reverse().push(x));
        assert(rest@ =~= values@.take(n - 1));
    }
    assert(values@.take(0) =~= Seq::empty());
    while todo.len() > 0
        invariant
            todo@.len() <= values@.len(),
            todo@ == values@.skip(values@.len() - todo@.len()).reverse(),
            result@ == sorted(values@.take(values@.len() - todo@.len())),
        decreases todo.len(),
    {
        let ghost k = values@.len() - todo@.len();
        let x = todo.pop().unwrap();
        assert(x == values@[k]);
        assert(values@.take(k + 1).drop_last() =~= values@.take(k));
        place(&mut result, x);
        assert(todo@ =~= values@.skip(k + 1).reverse());
    }
    assert(values@.take(values@.len() as int) =~= values@);
    result
}

impl Ordered for u64 {
    open spec fn at_or_before(self, other: u64) -> bool {
        self <= other
    }

    proof fn order_is_total(a: u64, b: u64) {
    }

    proof fn order_is_transitive(a: u64, b: u64, c: u64) {
    }

    fn may_precede(&self, other: &u64) -> (result: bool) {
        *self <= *other
    }
}

} // verus!
