//! Counting the positions of a sequence whose element passes a test, above all
//! the test of being equal to a given value, where "equal" is what `==`
//! computes.
//!
//! Two sequences with the same elements have the same counts, whatever their
//! orders, and so have two sequences that are equal position by position. From
//! both together: where two arrangements of the same elements start alike,
//! every value of the one's rest has an equal in the other's rest.
use crate::order::lemma_before_transitive;
use crate::order::lemma_before_trichotomy;
use crate::order::lt;
use crate::order::same;
use crate::order::total_order;
use vstd::multiset::Multiset;
use vstd::prelude::*;

verus! {

/// `a` is a rearrangement of `b`: both hold the same elements, each as often.
pub open spec fn permutation_of<T>(a: Seq<T>, b: Seq<T>) -> bool {
    a.to_multiset() == b.to_multiset()
}

/// `a` and `b` are equal at each of their first `k` positions.
pub open spec fn agree<T: PartialOrd>(a: Seq<T>, b: Seq<T>, k: int) -> bool {
    forall|j: int|
        #![trigger a[j]]
        #![trigger b[j]]
        0 <= j < k ==> same(a[j], b[j])
}

/// The test "equal to `c`".
pub open spec fn equal_to<T: PartialOrd>(c: T) -> spec_fn(T) -> bool {
    |x: T| same(x, c)
}

/// The test "smaller than `c`".
pub open spec fn smaller_than<T: PartialOrd>(c: T) -> spec_fn(T) -> bool {
    |x: T| lt(x, c)
}

/// The number of positions of `s` whose element passes `test`.
pub open spec fn count<T>(s: Seq<T>, test: spec_fn(T) -> bool) -> nat {
    s.to_multiset().filter(test).len()
}

/// The number of positions of `s` that hold a value equal to `c`.
pub open spec fn occurrences<T: PartialOrd>(s: Seq<T>, c: T) -> nat {
    count(s, equal_to(c))
}

/// Rearranging a sequence does not change its length.
pub proof fn lemma_permutation_length<T>(a: Seq<T>, b: Seq<T>)
    requires
        permutation_of(a, b),
    ensures
        a.len() == b.len(),
{
    vstd::seq_lib::to_multiset_len(a);
    vstd::seq_lib::to_multiset_len(b);
}

/// Rearranging a sequence changes none of its counts.
pub proof fn lemma_occurrences_of_permutation<T: PartialOrd>(a: Seq<T>, b: Seq<T>, c: T)
    requires
        permutation_of(a, b),
    ensures
        occurrences(a, c) == occurrences(b, c),
{
}

/// One more element adds one to the count where it passes the test.
pub proof fn lemma_count_push<T>(s: Seq<T>, x: T, test: spec_fn(T) -> bool)
    ensures
        count(s.push(x), test) == count(s, test) + if test(x) {
            1nat
        } else {
            0nat
        },
{
    broadcast use vstd::seq_lib::group_to_multiset_ensures;
    broadcast use vstd::multiset::group_multiset_axioms;
    broadcast use vstd::multiset::group_multiset_properties;

    let m = s.to_multiset();
    assert(s.push(x).to_multiset() =~= m.insert(x));
    if test(x) {
        assert(m.insert(x).filter(test) =~= m.filter(test).insert(x));
    } else {
        assert(m.insert(x).filter(test) =~= m.filter(test));
    }
}

/// One more element, wherever it goes, adds one to the count where it passes
/// the test.
pub proof fn lemma_count_insert<T>(s: Seq<T>, k: int, x: T, test: spec_fn(T) -> bool)
    requires
        0 <= k <= s.len(),
    ensures
        count(s.insert(k, x), test) == count(s, test) + if test(x) {
            1nat
        } else {
            0nat
        },
{
    lemma_count_push(s, x, test);
    vstd::seq_lib::to_multiset_insert(s, k, x);
    vstd::seq_lib::to_multiset_build(s, x);
}

/// The count of a concatenation is the sum of the two counts.
pub proof fn lemma_count_concat<T>(a: Seq<T>, b: Seq<T>, test: spec_fn(T) -> bool)
    ensures
        count(a + b, test) == count(a, test) + count(b, test),
{
    broadcast use vstd::multiset::group_multiset_axioms;

    vstd::seq_lib::lemma_multiset_commutative(a, b);
    assert(a.to_multiset().add(b.to_multiset()).filter(test) =~= a.to_multiset().filter(test).add(
        b.to_multiset().filter(test),
    ));
}

/// Where every element passes the test the count is the length, and where
/// none does it is zero.
pub proof fn lemma_count_uniform<T>(s: Seq<T>, test: spec_fn(T) -> bool)
    ensures
        (forall|i: int| 0 <= i < s.len() ==> test(#[trigger] s[i])) ==> count(s, test) == s.len(),
        (forall|i: int| 0 <= i < s.len() ==> !test(#[trigger] s[i])) ==> count(s, test) == 0,
    decreases s.len(),
{
    if s.len() == 0 {
        broadcast use vstd::multiset::group_multiset_axioms;

        vstd::seq_lib::to_multiset_len(s);
        assert(s.to_multiset() =~= Multiset::empty());
        assert(s.to_multiset().filter(test) =~= Multiset::empty());
    } else {
        lemma_count_uniform(s.drop_last(), test);
        lemma_count_push(s.drop_last(), s.last(), test);
        assert(s =~= s.drop_last().push(s.last()));
    }
}

/// The count is positive exactly where some position holds a value equal to
/// `c`.
pub proof fn lemma_occurrences_positive<T: PartialOrd>(s: Seq<T>, c: T)
    ensures
        occurrences(s, c) > 0 <==> exists|i: int| 0 <= i < s.len() && same(#[trigger] s[i], c),
{
    broadcast use vstd::seq_lib::group_to_multiset_ensures;
    broadcast use vstd::multiset::group_multiset_axioms;

    let m = s.to_multiset();
    let f = equal_to(c);
    if occurrences(s, c) > 0 {
        let v = m.filter(f).choose();
        assert(m.filter(f).count(v) > 0);
        assert(f(v) && m.count(v) > 0);
        assert(s.contains(v));
        let i = choose|i: int| 0 <= i < s.len() && s[i] == v;
        assert(same(s[i], c));
    }
    if exists|i: int| 0 <= i < s.len() && same(#[trigger] s[i], c) {
        let i = choose|i: int| 0 <= i < s.len() && same(#[trigger] s[i], c);
        assert(s.contains(s[i]));
        assert(m.count(s[i]) > 0);
        assert(m.filter(f).count(s[i]) > 0);
    }
}

/// Values that are equal occur equally often.
pub proof fn lemma_occurrences_of_same<T: Ord>(s: Seq<T>, y: T, z: T)
    requires
        total_order::<T>(),
        same(y, z),
    ensures
        occurrences(s, y) == occurrences(s, z),
{
    broadcast use vstd::multiset::group_multiset_axioms;

    assert forall|v: T| #[trigger] same(v, y) == same(v, z) by {
        lemma_before_trichotomy(false, y, z);
        lemma_before_transitive(false, v, y, z);
        lemma_before_transitive(false, v, z, y);
    }
    assert(s.to_multiset().filter(equal_to(y)) =~= s.to_multiset().filter(equal_to(z)));
}

/// Two sequences of one length that are equal position by position have the
/// same counts.
pub proof fn lemma_occurrences_of_equals<T: Ord>(a: Seq<T>, b: Seq<T>, c: T)
    requires
        total_order::<T>(),
        a.len() == b.len(),
        agree(a, b, a.len() as int),
    ensures
        occurrences(a, c) == occurrences(b, c),
    decreases a.len(),
{
    if a.len() == 0 {
        assert(a =~= b);
    } else {
        let x = a.last();
        let y = b.last();
        assert(same(x, y));
        lemma_before_trichotomy(false, x, y);
        lemma_before_transitive(false, x, y, c);
        lemma_before_transitive(false, y, x, c);
        lemma_occurrences_of_equals(a.drop_last(), b.drop_last(), c);
        assert(a =~= a.drop_last().push(x));
        assert(b =~= b.drop_last().push(y));
        lemma_count_push(a.drop_last(), x, equal_to(c));
        lemma_count_push(b.drop_last(), y, equal_to(c));
    }
}

/// Where `a` is a rearrangement of `b` and the two are equal at each of their
/// first `k` positions, every value that `b` holds at `k` or later has an equal
/// in `a` at `k` or later.
pub proof fn lemma_rest_holds_equal<T: Ord>(a: Seq<T>, b: Seq<T>, k: int, m: int)
    requires
        total_order::<T>(),
        permutation_of(a, b),
        0 <= k <= m < b.len(),
        agree(a, b, k),
    ensures
        exists|j: int| k <= j < a.len() && same(#[trigger] a[j], b[m]),
{
    let c = b[m];
    let n = a.len() as int;
    lemma_permutation_length(a, b);
    lemma_occurrences_of_permutation(a, b, c);
    let a0 = a.subrange(0, k);
    let a1 = a.subrange(k, n);
    let b0 = b.subrange(0, k);
    let b1 = b.subrange(k, n);
    assert(a =~= a0 + a1);
    assert(b =~= b0 + b1);
    lemma_count_concat(a0, a1, equal_to(c));
    lemma_count_concat(b0, b1, equal_to(c));
    assert(agree(a0, b0, k)) by {
        assert forall|j: int| 0 <= j < k implies same(#[trigger] a0[j], b0[j]) by {
            assert(a0[j] == a[j] && b0[j] == b[j]);
        }
    }
    lemma_occurrences_of_equals(a0, b0, c);
    lemma_before_trichotomy(false, c, c);
    assert(same(b1[m - k], c));
    lemma_occurrences_positive(b1, c);
    lemma_occurrences_positive(a1, c);
    let i = choose|i: int| 0 <= i < a1.len() && same(#[trigger] a1[i], c);
    assert(same(a[k + i], b[m]));
}

} // verus!
