//! How many there are: of pairs, of the places in a list that are wanted, and of ways to choose.
use vstd::prelude::*;

verus! {

/// What is renamed without mixing anything up is as many as before.
pub proof fn lemma_renamed<A, B>(from: Set<A>, to: Set<B>, name: spec_fn(A) -> B)
    requires
        from.finite(),
        forall|a: A| #[trigger] from.contains(a) ==> to.contains(name(a)),
        forall|b: B| #[trigger]
            to.contains(b) ==> exists|a: A| #[trigger] from.contains(a) && name(a) == b,
        forall|a: A, b: A|
            #![trigger from.contains(a), from.contains(b)]
            from.contains(a) && from.contains(b) && name(a) == name(b) ==> a == b,
    ensures
        to.finite(),
        to.len() == from.len(),
    decreases from.len(),
{
    if from.len() == 0 {
        assert(from =~= Set::empty());
        assert(to =~= Set::empty());
    } else {
        let a = from.choose();
        let fewer = from.remove(a);
        let left = to.remove(name(a));
        assert forall|b: B| #[trigger] left.contains(b) implies exists|x: A| #[trigger]
            fewer.contains(x) && name(x) == b by {
            assert(to.contains(b));
            let x = choose|x: A| #[trigger] from.contains(x) && name(x) == b;
            assert(fewer.contains(x));
        }
        assert forall|x: A| #[trigger] fewer.contains(x) implies left.contains(name(x)) by {
            assert(from.contains(x) && from.contains(a));
        }
        assert forall|x: A, y: A|
            #![trigger fewer.contains(x), fewer.contains(y)]
            fewer.contains(x) && fewer.contains(y) && name(x) == name(y) implies x == y by {
            assert(from.contains(x) && from.contains(y));
        }
        lemma_renamed(fewer, left, name);
        assert(to =~= left.insert(name(a)));
    }
}

/// Two parts without anything in common are together as many as each of them.
pub proof fn lemma_parts<A>(all: Set<A>, first: Set<A>, second: Set<A>)
    requires
        first.finite(),
        second.finite(),
        forall|a: A| #[trigger] all.contains(a) <==> first.contains(a) || second.contains(a),
        forall|a: A| !(#[trigger] first.contains(a) && second.contains(a)),
    ensures
        all.finite(),
        all.len() == first.len() + second.len(),
    decreases first.len(),
{
    if first.len() == 0 {
        assert(first =~= Set::empty());
        assert(all =~= second);
    } else {
        let a = first.choose();
        assert(first.contains(a));
        assert(!second.contains(a));
        let fewer = first.remove(a);
        let left = all.remove(a);
        assert forall|x: A| #[trigger] left.contains(x) <==> fewer.contains(x) || second.contains(
            x,
        ) by {
            assert(all.contains(x) <==> first.contains(x) || second.contains(x));
        }
        assert forall|x: A| !(#[trigger] fewer.contains(x) && second.contains(x)) by {
            if fewer.contains(x) {
                assert(first.contains(x));
            }
        }
        lemma_parts(left, fewer, second);
        assert(all =~= left.insert(a));
    }
}

/// The pairs with one out of each of two.
pub open spec fn pairs_of<A, B>(first: Set<A>, second: Set<B>) -> Set<(A, B)> {
    Set::new(|p: (A, B)| first.contains(p.0) && second.contains(p.1))
}

/// There are as many pairs as the product says.
pub proof fn lemma_pairs<A, B>(first: Set<A>, second: Set<B>)
    requires
        first.finite(),
        second.finite(),
    ensures
        pairs_of(first, second).finite(),
        pairs_of(first, second).len() == first.len() * second.len(),
    decreases second.len(),
{
    let all = pairs_of(first, second);
    if second.len() == 0 {
        assert(second =~= Set::empty());
        assert(all =~= Set::empty());
    } else {
        let b = second.choose();
        let fewer = second.remove(b);
        let rest = pairs_of(first, fewer);
        let here: Set<(A, B)> = Set::new(|p: (A, B)| first.contains(p.0) && p.1 == b);
        lemma_pairs(first, fewer);
        let name = |a: A| (a, b);
        assert forall|p: (A, B)| #[trigger] here.contains(p) implies exists|a: A| #[trigger]
            first.contains(a) && name(a) == p by {
            assert(first.contains(p.0) && name(p.0) == p);
        }
        lemma_renamed(first, here, name);
        lemma_parts(all, rest, here);
        assert(first.len() * second.len() == first.len() * fewer.len() + first.len())
            by (nonlinear_arith)
            requires
                second.len() == fewer.len() + 1,
        ;
    }
}

/// The places below a bound that are wanted.
pub open spec fn places(bound: int, wanted: spec_fn(int) -> bool) -> Set<int> {
    Set::new(|p: int| 0 <= p < bound && wanted(p))
}

/// One more place is one more, where it is wanted.
pub proof fn lemma_places_step(bound: int, wanted: spec_fn(int) -> bool)
    requires
        bound > 0,
        places(bound - 1, wanted).finite(),
    ensures
        places(bound, wanted).finite(),
        places(bound, wanted).len() == places(bound - 1, wanted).len() + (if wanted(bound - 1) {
            1int
        } else {
            0
        }),
{
    let before = places(bound - 1, wanted);
    if wanted(bound - 1) {
        assert(places(bound, wanted) =~= before.insert(bound - 1));
    } else {
        assert(places(bound, wanted) =~= before);
    }
}

/// There is nothing below zero.
pub proof fn lemma_no_places(wanted: spec_fn(int) -> bool)
    ensures
        places(0, wanted).finite(),
        places(0, wanted).len() == 0,
{
    assert(places(0, wanted) =~= Set::empty());
}

/// There are no more places than the bound says.
pub proof fn lemma_places_finite(bound: int, wanted: spec_fn(int) -> bool)
    requires
        bound >= 0,
    ensures
        places(bound, wanted).finite(),
        places(bound, wanted).len() <= bound,
    decreases bound,
{
    if bound == 0 {
        lemma_no_places(wanted);
    } else {
        lemma_places_finite(bound - 1, wanted);
        lemma_places_step(bound, wanted);
    }
}

/// Places are as many as others where the same ones are wanted.
pub proof fn lemma_places_alike(
    bound: int,
    wanted: spec_fn(int) -> bool,
    asked: spec_fn(int) -> bool,
)
    requires
        forall|p: int| 0 <= p < bound ==> #[trigger] wanted(p) == asked(p),
    ensures
        places(bound, wanted) == places(bound, asked),
{
    assert(places(bound, wanted) =~= places(bound, asked));
}

} // verus!
