//! The order of the keys.
//!
//! Everything the map proves about keys goes through the one relation [`lt`].
//! The lemmas here derive, from the laws that `vstd` states for `Ord`, that
//! `lt` is a strict weak order; the rest of the crate uses only that.
use core::cmp::Ordering;
use vstd::prelude::*;
use vstd::std_specs::cmp::{OrdSpec, PartialEqSpec, PartialOrdSpec};

verus! {

/// The comparison of `K` is a total order: `cmp` and `partial_cmp` agree,
/// "less" is transitive and the mirror image of "greater", and "equal" is
/// the equivalence that `==` computes.
pub open spec fn total_order<K: Ord>() -> bool {
    vstd::laws_cmp::obeys_cmp::<K>()
}

/// Cloning a `T` gives back the same value.
pub open spec fn faithful_clone<T: Clone>() -> bool {
    forall|a: T, b: T| #[trigger] cloned(a, b) ==> a == b
}

/// `a` is strictly below `b`.
pub open spec fn lt<K: Ord>(a: K, b: K) -> bool {
    a.cmp_spec(&b) == Ordering::Less
}

/// `a` is below `b` or takes the same place.
pub open spec fn le<K: Ord>(a: K, b: K) -> bool {
    !lt(b, a)
}

/// `a` and `b` take the same place in the order.
pub open spec fn eqv<K: Ord>(a: K, b: K) -> bool {
    !lt(a, b) && !lt(b, a)
}

/// What the laws of `vstd` say of two keys, in one place.
proof fn lemma_pair<K: Ord>(a: K, b: K)
    requires
        total_order::<K>(),
    ensures
        a.cmp_spec(&b) == Ordering::Less <==> b.cmp_spec(&a) == Ordering::Greater,
        a.cmp_spec(&b) == Ordering::Equal <==> b.cmp_spec(&a) == Ordering::Equal,
        a.cmp_spec(&b) == Ordering::Equal <==> a.eq_spec(&b),
{
    reveal(vstd::laws_cmp::obeys_partial_cmp_spec_properties);
    reveal(vstd::laws_cmp::obeys_cmp_partial_ord);
    reveal(vstd::laws_cmp::obeys_cmp_ord);
    reveal(vstd::laws_eq::obeys_eq_spec_properties);
    assert(a.partial_cmp_spec(&b) == Some(a.cmp_spec(&b)));
    assert(b.partial_cmp_spec(&a) == Some(b.cmp_spec(&a)));
    assert(b.cmp_spec(&a) == Ordering::Less <==> a.cmp_spec(&b) == Ordering::Greater);
    assert(a.eq_spec(&b) <==> b.eq_spec(&a));
}

/// `Less` one way round is `Greater` the other way round.
pub proof fn lemma_cmp_mirror<K: Ord>(a: K, b: K)
    requires
        total_order::<K>(),
    ensures
        a.cmp_spec(&b) == Ordering::Greater <==> lt(b, a),
        a.cmp_spec(&b) == Ordering::Equal <==> eqv(a, b),
{
    lemma_pair(a, b);
}

/// The equivalence of keys is transitive.
proof fn lemma_equal_transitive<K: Ord>(a: K, b: K, c: K)
    requires
        total_order::<K>(),
        a.cmp_spec(&b) == Ordering::Equal,
        b.cmp_spec(&c) == Ordering::Equal,
    ensures
        a.cmp_spec(&c) == Ordering::Equal,
{
    lemma_pair(a, b);
    lemma_pair(b, c);
    lemma_pair(a, c);
    reveal(vstd::laws_eq::obeys_eq_spec_properties);
    assert(a.eq_spec(&b) && b.eq_spec(&c) ==> a.eq_spec(&c));
}

/// No two keys are each below the other, and no key is below itself.
pub proof fn lemma_lt_asymmetric<K: Ord>(a: K, b: K)
    requires
        total_order::<K>(),
    ensures
        !(lt(a, b) && lt(b, a)),
{
    lemma_pair(a, b);
}

/// `lt` is transitive.
pub proof fn lemma_lt_transitive<K: Ord>(a: K, b: K, c: K)
    requires
        total_order::<K>(),
        lt(a, b),
        lt(b, c),
    ensures
        lt(a, c),
{
    reveal(vstd::laws_cmp::obeys_partial_cmp_spec_properties);
    reveal(vstd::laws_cmp::obeys_cmp_ord);
    assert(a.partial_cmp_spec(&b) == Some(a.cmp_spec(&b)));
    assert(b.partial_cmp_spec(&c) == Some(b.cmp_spec(&c)));
    assert(a.partial_cmp_spec(&c) == Some(a.cmp_spec(&c)));
}

/// `le` is transitive: the keys that are not above one another form chains.
pub proof fn lemma_le_transitive<K: Ord>(a: K, b: K, c: K)
    requires
        total_order::<K>(),
        le(a, b),
        le(b, c),
    ensures
        le(a, c),
{
    lemma_pair(a, b);
    lemma_pair(b, c);
    lemma_pair(a, c);
    if lt(c, a) {
        // c < a <= b <= c
        if lt(a, b) {
            lemma_lt_transitive(c, a, b);
            lemma_pair(c, b);
        } else {
            // a and b are equal, so b is above c as a is
            assert(a.cmp_spec(&b) == Ordering::Equal);
            if lt(b, c) {
                lemma_lt_transitive(b, c, a);
                lemma_pair(b, a);
            } else {
                assert(b.cmp_spec(&c) == Ordering::Equal);
                lemma_equal_transitive(a, b, c);
            }
        }
    }
}

/// Every way in which two steps up the order combine into one.
pub proof fn lemma_chain<K: Ord>(a: K, b: K, c: K)
    requires
        total_order::<K>(),
    ensures
        lt(a, b) ==> le(a, b),
        lt(b, c) ==> le(b, c),
        lt(a, c) ==> le(a, c),
        lt(a, b) && lt(b, c) ==> lt(a, c),
        le(a, b) && le(b, c) ==> le(a, c),
        lt(a, b) && le(b, c) ==> lt(a, c),
        le(a, b) && lt(b, c) ==> lt(a, c),
{
    lemma_lt_asymmetric(a, b);
    lemma_lt_asymmetric(b, c);
    lemma_lt_asymmetric(a, c);
    if lt(a, b) && lt(b, c) {
        lemma_lt_transitive(a, b, c);
    }
    if le(a, b) && le(b, c) {
        lemma_le_transitive(a, b, c);
    }
    if lt(a, b) && le(b, c) && !lt(a, c) {
        lemma_le_transitive(b, c, a);
    }
    if le(a, b) && lt(b, c) && !lt(a, c) {
        lemma_le_transitive(c, a, b);
    }
}

/// Whether `a` is strictly below `b`.
pub fn is_lt<K: Ord>(a: &K, b: &K) -> (r: bool)
    requires
        total_order::<K>(),
    ensures
        r == lt(*a, *b),
{
    proof {
        reveal(vstd::laws_cmp::obeys_cmp_ord);
    }
    match a.cmp(b) {
        Ordering::Less => true,
        _ => false,
    }
}

/// A copy of `a`.
pub fn copy_of<T: Clone>(a: &T) -> (r: T)
    requires
        faithful_clone::<T>(),
    ensures
        r == *a,
{
    let r = a.clone();
    assert(cloned(*a, r));
    r
}

} // verus!
