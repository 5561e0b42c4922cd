//! The order on elements that the algorithms of this crate compare by.
//!
//! Everything here speaks of what `<`, `>` and `==` compute for a type, never
//! of structural equality: two values that compare equal may still differ.
use core::cmp::Ordering;
use vstd::laws_cmp::obeys_cmp;
use vstd::laws_cmp::obeys_cmp_ord;
use vstd::laws_cmp::obeys_cmp_partial_ord;
use vstd::laws_cmp::obeys_partial_cmp_spec_properties;
use vstd::laws_eq::obeys_eq_spec_properties;
use vstd::prelude::*;
use vstd::std_specs::cmp::OrdSpec;
use vstd::std_specs::cmp::PartialEqSpec;
use vstd::std_specs::cmp::PartialOrdSpec;

verus! {

/// `a < b`.
pub open spec fn lt<T: PartialOrd>(a: T, b: T) -> bool {
    a.partial_cmp_spec(&b) == Some(Ordering::Less)
}

/// `a > b`.
pub open spec fn gt<T: PartialOrd>(a: T, b: T) -> bool {
    a.partial_cmp_spec(&b) == Some(Ordering::Greater)
}

/// `a == b`.
pub open spec fn same<T: PartialOrd>(a: T, b: T) -> bool {
    a.eq_spec(&b)
}

/// `a` is neither smaller than `b` nor equal to it. Where the two can be
/// compared, that is `a > b`.
pub open spec fn above<T: PartialOrd>(a: T, b: T) -> bool {
    !lt(a, b) && !same(a, b)
}

/// `partial_cmp` finds `a` and `b` equal.
pub open spec fn level<T: PartialOrd>(a: T, b: T) -> bool {
    a.partial_cmp_spec(&b) == Some(Ordering::Equal)
}

/// `a` and `b` can be compared at all.
pub open spec fn comparable<T: PartialOrd>(a: T, b: T) -> bool {
    a.partial_cmp_spec(&b) is Some
}

/// `a` comes strictly before `b`: `a < b` in ascending direction, `a > b` in
/// descending direction.
pub open spec fn before<T: PartialOrd>(descending: bool, a: T, b: T) -> bool {
    if descending {
        gt(a, b)
    } else {
        lt(a, b)
    }
}

/// The comparison operators of `T` compute what `partial_cmp_spec` and
/// `eq_spec` say, and `==` agrees with `partial_cmp` on when two values are
/// equal.
pub open spec fn coherent<T: PartialOrd>() -> bool {
    obeys_cmp_partial_ord::<T>()
}

/// The comparison operators of `T` compute a total order, in which `==` is the
/// equivalence of being neither smaller nor greater. For the integer types,
/// and for references, options and tuples of totally ordered types, vstd's
/// `group_laws_cmp` proves it.
pub open spec fn total_order<T: Ord>() -> bool {
    obeys_cmp::<T>()
}

/// What `coherent` says, spelled out: the operators compute what
/// `partial_cmp_spec` and `eq_spec` say, `==` holds exactly where `partial_cmp`
/// finds equality, and what is neither smaller nor equal is greater where the
/// two can be compared.
pub proof fn lemma_coherent<T: PartialOrd>()
    requires
        coherent::<T>(),
    ensures
        T::obeys_eq_spec(),
        T::obeys_partial_cmp_spec(),
        forall|a: T, b: T| #[trigger] same(a, b) <==> level(a, b),
        forall|a: T, b: T| !(lt(a, b) && #[trigger] same(a, b)),
        forall|a: T, b: T| comparable(a, b) ==> (#[trigger] above(a, b) <==> gt(a, b)),
{
    reveal(obeys_cmp_partial_ord);
    assert forall|a: T, b: T| comparable(a, b) implies (#[trigger] above(a, b) <==> gt(a, b)) by {
        match a.partial_cmp_spec(&b) {
            Some(Ordering::Less) => {},
            Some(Ordering::Equal) => {},
            Some(Ordering::Greater) => {},
            None => {},
        }
    }
}

/// A total order is coherent.
pub proof fn lemma_total_order_is_coherent<T: Ord>()
    requires
        total_order::<T>(),
    ensures
        coherent::<T>(),
{
}

/// Exactly one of `a < b`, `a == b` and `a > b` holds, and `a > b` is `b < a`.
pub proof fn lemma_trichotomy<T: Ord>(a: T, b: T)
    requires
        total_order::<T>(),
    ensures
        lt(a, b) || same(a, b) || gt(a, b),
        !(lt(a, b) && same(a, b)),
        !(lt(a, b) && gt(a, b)),
        !(same(a, b) && gt(a, b)),
        gt(a, b) == lt(b, a),
        gt(a, b) == above(a, b),
        same(a, b) == same(b, a),
        same(a, a),
{
    reveal(obeys_cmp_partial_ord);
    reveal(obeys_cmp_ord);
    reveal(obeys_partial_cmp_spec_properties);
    reveal(obeys_eq_spec_properties);
    assert(a.partial_cmp_spec(&b) == Some(a.cmp_spec(&b)));
    assert(b.partial_cmp_spec(&a) == Some(b.cmp_spec(&a)));
    assert(a.partial_cmp_spec(&a) == Some(a.cmp_spec(&a)));
    if gt(a, a) {
        assert(lt(a, a));
    }
}

/// `<` is transitive, also through `==` on either side, and `==` is
/// transitive.
pub proof fn lemma_transitive<T: Ord>(a: T, b: T, c: T)
    requires
        total_order::<T>(),
    ensures
        lt(a, b) && lt(b, c) ==> lt(a, c),
        same(a, b) && same(b, c) ==> same(a, c),
        same(a, b) && lt(b, c) ==> lt(a, c),
        lt(a, b) && same(b, c) ==> lt(a, c),
        !lt(a, b) && !lt(b, c) ==> !lt(a, c),
{
    lemma_trichotomy(a, b);
    lemma_trichotomy(b, c);
    lemma_trichotomy(a, c);
    lemma_trichotomy(b, a);
    lemma_trichotomy(c, b);
    lemma_trichotomy(c, a);
    reveal(obeys_partial_cmp_spec_properties);
    reveal(obeys_eq_spec_properties);
    if lt(a, b) && lt(b, c) {
        assert(lt(a, c));
    }
    if same(a, b) && same(b, c) {
        assert(same(a, c));
    }
    if same(a, b) && lt(b, c) && !lt(a, c) {
        if same(a, c) {
            assert(same(b, a));
            assert(same(b, c));
        } else {
            assert(lt(c, a));
            assert(lt(b, a));
        }
    }
    if lt(a, b) && same(b, c) && !lt(a, c) {
        if same(a, c) {
            assert(same(c, b));
            assert(same(a, b));
        } else {
            assert(lt(c, a));
            assert(lt(c, b));
        }
    }
}

/// In either direction exactly one of "`a` before `b`", `a == b` and "`b`
/// before `a`" holds, and turning the direction round swaps the two sides.
pub proof fn lemma_before_trichotomy<T: Ord>(descending: bool, a: T, b: T)
    requires
        total_order::<T>(),
    ensures
        before(descending, a, b) || same(a, b) || before(descending, b, a),
        !(before(descending, a, b) && same(a, b)),
        !(before(descending, a, b) && before(descending, b, a)),
        !(same(a, b) && before(descending, b, a)),
        before(!descending, a, b) == before(descending, b, a),
        same(a, b) == same(b, a),
        same(a, a),
{
    lemma_trichotomy(a, b);
    lemma_trichotomy(b, a);
}

/// In either direction "before" is transitive, also through `==` on either
/// side, and so is "not before".
pub proof fn lemma_before_transitive<T: Ord>(descending: bool, a: T, b: T, c: T)
    requires
        total_order::<T>(),
    ensures
        before(descending, a, b) && before(descending, b, c) ==> before(descending, a, c),
        same(a, b) && same(b, c) ==> same(a, c),
        same(a, b) && before(descending, b, c) ==> before(descending, a, c),
        before(descending, a, b) && same(b, c) ==> before(descending, a, c),
        !before(descending, a, b) && !before(descending, b, c) ==> !before(descending, a, c),
        !before(descending, b, a) && before(descending, b, c) ==> before(descending, a, c),
        before(descending, a, b) && !before(descending, c, b) ==> before(descending, a, c),
{
    lemma_trichotomy(a, b);
    lemma_trichotomy(b, c);
    lemma_trichotomy(a, c);
    lemma_trichotomy(b, a);
    lemma_trichotomy(c, b);
    lemma_trichotomy(c, a);
    lemma_transitive(a, b, c);
    lemma_transitive(c, b, a);
}

} // verus!
