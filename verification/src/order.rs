//! What it means for a type's `<` and `==` to be a strict total order.

use core::cmp::Ordering;
use vstd::prelude::*;
use vstd::std_specs::cmp::PartialEqSpec;
use vstd::std_specs::cmp::PartialOrdSpec;

verus! {

/// `a` comes strictly before `b`.
pub open spec fn lt<T: PartialOrd>(a: T, b: T) -> bool {
    a.partial_cmp_spec(&b) == Some(Ordering::Less)
}

/// `a` comes before `b`, or is `b`.
pub open spec fn le<T: PartialOrd>(a: T, b: T) -> bool {
    lt(a, b) || a == b
}

/// The type's `==` decides equality of values, and its `<` is a strict total order.
#[verifier::opaque]
pub open spec fn lawful<T: PartialOrd>() -> bool {
    &&& T::obeys_eq_spec()
    &&& T::obeys_partial_cmp_spec()
    &&& forall|a: T, b: T| #[trigger] a.eq_spec(&b) <==> a == b
    &&& forall|a: T, b: T| #[trigger] a.partial_cmp_spec(&b) == Some(Ordering::Equal) <==> a == b
    &&& forall|a: T| !#[trigger] lt(a, a)
    &&& forall|a: T, b: T| a == b || #[trigger] lt(a, b) || lt(b, a)
    &&& forall|a: T, b: T, c: T| #[trigger] lt(a, b) && #[trigger] lt(b, c) ==> lt(a, c)
}

/// A strict order relates no value to itself, and no two values both ways.
pub proof fn lemma_asymmetric<T: PartialOrd>(a: T, b: T)
    requires
        lawful::<T>(),
        lt(a, b),
    ensures
        a != b,
        !lt(b, a),
{
    reveal(lawful);
    assert(!lt(a, a));
}

/// Of two different values one comes first.
pub proof fn lemma_total<T: PartialOrd>(a: T, b: T)
    requires
        lawful::<T>(),
    ensures
        lt(a, b) || a == b || lt(b, a),
{
    reveal(lawful);
}

/// A strict order is transitive.
pub proof fn lemma_transitive<T: PartialOrd>(a: T, b: T, c: T)
    requires
        lawful::<T>(),
        le(a, b),
        le(b, c),
    ensures
        le(a, c),
        lt(a, b) || lt(b, c) ==> lt(a, c),
{
    reveal(lawful);
}

/// Pairs of ordered values are ordered, by their first part and then by their second.
pub proof fn lemma_pair_lawful<A: PartialOrd, B: PartialOrd>()
    requires
        lawful::<A>(),
        lawful::<B>(),
    ensures
        lawful::<(A, B)>(),
        forall|p: (A, B), q: (A, B)| #[trigger]
            lt(p, q) <==> lt(p.0, q.0) || (p.0 == q.0 && lt(p.1, q.1)),
{
    reveal(lawful);
    assert forall|p: (A, B), q: (A, B)| #[trigger] lt(p, q) <==> lt(p.0, q.0) || (p.0 == q.0 && lt(
        p.1,
        q.1,
    )) by {
        assert(p.0.partial_cmp_spec(&q.0) == Some(Ordering::Equal) <==> p.0 == q.0);
    }
    assert forall|p: (A, B), q: (A, B)| #[trigger] p.eq_spec(&q) <==> p == q by {
        assert(p.0.eq_spec(&q.0) <==> p.0 == q.0);
        assert(p.1.eq_spec(&q.1) <==> p.1 == q.1);
    }
    assert forall|p: (A, B), q: (A, B)| #[trigger] p.partial_cmp_spec(&q) == Some(Ordering::Equal)
        <==> p == q by {
        assert(p.0.partial_cmp_spec(&q.0) == Some(Ordering::Equal) <==> p.0 == q.0);
        assert(p.1.partial_cmp_spec(&q.1) == Some(Ordering::Equal) <==> p.1 == q.1);
    }
    assert forall|p: (A, B)| !#[trigger] lt(p, p) by {
        assert(!lt(p.0, p.0) && !lt(p.1, p.1));
    }
    assert forall|p: (A, B), q: (A, B)| p == q || #[trigger] lt(p, q) || lt(q, p) by {
        lemma_total(p.0, q.0);
        lemma_total(p.1, q.1);
    }
    assert forall|p: (A, B), q: (A, B), r: (A, B)| #[trigger] lt(p, q) && #[trigger] lt(
        q,
        r,
    ) implies lt(p, r) by {
        lemma_transitive(p.0, q.0, r.0);
        if p.0 == q.0 && q.0 == r.0 {
            lemma_transitive(p.1, q.1, r.1);
        }
    }
}

/// Whether `*a < *b`, for a type whose order is lawful.
pub fn less<T: PartialOrd>(a: &T, b: &T) -> (r: bool)
    requires
        lawful::<T>(),
    ensures
        r == lt(*a, *b),
{
    proof {
        reveal(lawful);
    }
    *a < *b
}

/// Whether `*a == *b`, for a type whose order is lawful.
pub fn same<T: PartialOrd>(a: &T, b: &T) -> (r: bool)
    requires
        lawful::<T>(),
    ensures
        r == (*a == *b),
{
    proof {
        reveal(lawful);
    }
    *a == *b
}

} // verus!
