use vstd::prelude::*;
use vstd::laws_cmp::{
    obeys_cmp, obeys_cmp_ord, obeys_cmp_partial_ord, obeys_partial_cmp_spec_properties,
};
use vstd::laws_eq::obeys_eq_spec_properties;
use vstd::std_specs::cmp::{OrdSpec, PartialEqSpec, PartialOrdSpec};
use core::cmp::Ordering;

verus! {

/// `a` is at most `b` in the order of `T`.
pub open spec fn le<T: PartialOrd>(a: T, b: T) -> bool {
    a.partial_cmp_spec(&b) matches Some(Ordering::Less | Ordering::Equal)
}

/// Makes the laws of a lawful `Ord` visible to the solver.
pub(crate) proof fn reveal_cmp_laws<T: Ord>()
    requires
        obeys_cmp::<T>(),
    ensures
        T::obeys_partial_cmp_spec(),
        forall|x: T, y: T| #[trigger] x.partial_cmp_spec(&y) is Some,
        forall|x: T, y: T|
            #[trigger] x.partial_cmp_spec(&y) == Some(Ordering::Less) <==> y.partial_cmp_spec(&x)
                == Some(Ordering::Greater),
        forall|x: T, y: T|
            #[trigger] x.partial_cmp_spec(&y) == Some(Ordering::Equal) ==> y.partial_cmp_spec(&x)
                == Some(Ordering::Equal),
{
    reveal(obeys_cmp_partial_ord);
    reveal(obeys_cmp_ord);
    reveal(obeys_partial_cmp_spec_properties);
    reveal(obeys_eq_spec_properties);
    assert forall|x: T, y: T| #[trigger] x.partial_cmp_spec(&y) is Some by {
        assert(x.partial_cmp_spec(&y) == Some(x.cmp_spec(&y)));
    }
    assert forall|x: T, y: T|
        #[trigger] x.partial_cmp_spec(&y) == Some(Ordering::Equal) implies y.partial_cmp_spec(&x)
        == Some(Ordering::Equal) by {
        assert(x.eq_spec(&y));
        assert(y.eq_spec(&x));
    }
}

/// Every value is at most itself.
pub proof fn lemma_le_reflexive<T: Ord>(a: T)
    requires
        obeys_cmp::<T>(),
    ensures
        le(a, a),
{
    reveal_cmp_laws::<T>();
}

/// Any two values are comparable.
pub proof fn lemma_le_total<T: Ord>(a: T, b: T)
    requires
        obeys_cmp::<T>(),
    ensures
        le(a, b) || le(b, a),
{
    reveal_cmp_laws::<T>();
}

/// `le` is transitive.
pub proof fn lemma_le_transitive<T: Ord>(a: T, b: T, c: T)
    requires
        obeys_cmp::<T>(),
        le(a, b),
        le(b, c),
    ensures
        le(a, c),
{
    reveal_cmp_laws::<T>();
    reveal(obeys_partial_cmp_spec_properties);
    reveal(obeys_eq_spec_properties);
    reveal(obeys_cmp_partial_ord);
    if a.partial_cmp_spec(&b) == Some(Ordering::Equal) && b.partial_cmp_spec(&c) == Some(
        Ordering::Equal,
    ) {
        assert(a.eq_spec(&b));
        assert(b.eq_spec(&c));
        assert(a.eq_spec(&c));
    } else if a.partial_cmp_spec(&b) == Some(Ordering::Equal) {
        // a == b < c
        assert(a.eq_spec(&b));
        if c.partial_cmp_spec(&a) == Some(Ordering::Less) {
            assert(c.partial_cmp_spec(&b) == Some(Ordering::Less));
        } else if c.partial_cmp_spec(&a) == Some(Ordering::Equal) {
            assert(c.eq_spec(&a));
            assert(c.eq_spec(&b));
            assert(b.eq_spec(&c));
        }
    } else if b.partial_cmp_spec(&c) == Some(Ordering::Equal) {
        // a < b == c
        assert(b.eq_spec(&c));
        assert(c.eq_spec(&b));
        if c.partial_cmp_spec(&a) == Some(Ordering::Less) {
            assert(b.partial_cmp_spec(&a) == Some(Ordering::Less));
        } else if c.partial_cmp_spec(&a) == Some(Ordering::Equal) {
            assert(c.eq_spec(&a));
            assert(b.eq_spec(&a));
            assert(a.eq_spec(&b));
        }
    }
}

/// Exactly one of `le(b, a)` and "`a` compares below `b`" holds.
pub proof fn lemma_lt_not_le<T: Ord>(a: T, b: T)
    requires
        obeys_cmp::<T>(),
    ensures
        a.partial_cmp_spec(&b) == Some(Ordering::Less) <==> !le(b, a),
        a.partial_cmp_spec(&b) matches Some(Ordering::Greater | Ordering::Equal) <==> le(b, a),
{
    reveal_cmp_laws::<T>();
}

} // verus!
