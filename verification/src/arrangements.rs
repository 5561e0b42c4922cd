//! How many rearrangements a sequence has: the factorial of its length,
//! divided by the factorial of the number of occurrences of each of its values.
//! Rearrangements that are equal position by position count as one.
use crate::lex::lex_same;
use crate::occurrences::count;
use crate::occurrences::equal_to;
use crate::occurrences::lemma_count_insert;
use crate::occurrences::lemma_count_push;
use crate::occurrences::lemma_occurrences_of_permutation;
use crate::occurrences::lemma_occurrences_of_same;
use crate::occurrences::lemma_permutation_length;
use crate::occurrences::occurrences;
use crate::occurrences::permutation_of;
use crate::order::before;
use crate::order::lemma_before_transitive;
use crate::order::lemma_before_trichotomy;
use crate::order::same;
use crate::order::total_order;
use crate::permutation::advance;
use crate::permutation::has_step;
use crate::permutation::is_last;
use crate::permutation::is_pivot;
use crate::permutation::is_step;
use crate::permutation::lemma_advance_shape;
use crate::permutation::lemma_last_iff_no_step;
use crate::permutation::lemma_no_step_falls;
use crate::permutation::lemma_pivot_exists;
use crate::permutation::partner;
use crate::permutation::rises_from;
use crate::walk::advance_by;
use crate::walk::lemma_advance_by_sum;
use crate::walk::lemma_walk_ends;
use crate::walk::lemma_walk_keeps_head;
use crate::walk::lemma_walk_permutes;
use crate::walk::unwrapped;
use vstd::prelude::*;

verus! {

/// The product of the numbers from 1 to `n`.
pub open spec fn factorial(n: nat) -> nat
    decreases n,
{
    if n == 0 {
        1
    } else {
        n * factorial((n - 1) as nat)
    }
}

/// The product, over the values of `s`, of the factorial of the number of
/// times that the value occurs: each position contributes the number of
/// occurrences of its value up to there, so that a value's first occurrence
/// contributes 1, its second 2, and so on.
pub open spec fn repeats<T: PartialOrd>(s: Seq<T>) -> nat
    decreases s.len(),
{
    if s.len() == 0 {
        1
    } else {
        repeats(s.drop_last()) * occurrences(s, s.last())
    }
}

/// One more element, wherever it goes, multiplies the product by the number
/// of occurrences that its value then has.
pub proof fn lemma_repeats_insert<T: Ord>(s: Seq<T>, k: int, y: T)
    requires
        total_order::<T>(),
        0 <= k <= s.len(),
    ensures
        repeats(s.insert(k, y)) == repeats(s) * (occurrences(s, y) + 1),
    decreases s.len() - k,
{
    let grown = s.insert(k, y);
    lemma_before_trichotomy(false, y, y);
    if k == s.len() {
        assert(grown.drop_last() =~= s);
        lemma_count_insert(s, k, y, equal_to(y));
    } else {
        let z = s.last();
        let head = s.drop_last();
        assert(grown.drop_last() =~= head.insert(k, y));
        assert(grown.last() == z);
        lemma_repeats_insert(head, k, y);
        lemma_count_insert(s, k, y, equal_to(z));
        assert(s =~= head.push(z));
        lemma_count_push(head, z, equal_to(y));
        lemma_before_trichotomy(false, z, y);
        let r = repeats(head);
        let a = occurrences(head, y);
        let b = occurrences(s, z);
        if same(y, z) {
            lemma_occurrences_of_same(s, y, z);
            assert(r * (a + 1) * (b + 1) == r * b * (a + 1 + 1)) by (nonlinear_arith)
                requires
                    b == a + 1,
            ;
        } else {
            assert(r * (a + 1) * b == r * b * (a + 1)) by (nonlinear_arith);
        }
    }
}

/// The product is the same for every rearrangement of a sequence.
pub proof fn lemma_repeats_of_permutation<T: Ord>(a: Seq<T>, b: Seq<T>)
    requires
        total_order::<T>(),
        permutation_of(a, b),
    ensures
        repeats(a) == repeats(b),
    decreases a.len(),
{
    lemma_permutation_length(a, b);
    if a.len() > 0 {
        let z = a.last();
        let head = a.drop_last();
        vstd::seq_lib::to_multiset_contains(a, z);
        vstd::seq_lib::to_multiset_contains(b, z);
        assert(a.contains(z));
        let j = choose|j: int| 0 <= j < b.len() && b[j] == z;
        let rest = b.remove(j);
        assert(a.remove(a.len() - 1) =~= head);
        vstd::seq_lib::to_multiset_remove(a, a.len() - 1);
        vstd::seq_lib::to_multiset_remove(b, j);
        lemma_repeats_of_permutation(head, rest);
        lemma_occurrences_of_permutation(head, rest, z);
        assert(a =~= head.insert(head.len() as int, z));
        assert(b =~= rest.insert(j, z));
        lemma_repeats_insert(head, head.len() as int, z);
        lemma_repeats_insert(rest, j, z);
    }
}

/// The walk stands at its last rearrangement after `steps` advances, none of
/// which wraps round.
pub open spec fn ends_after<T: PartialOrd>(descending: bool, s: Seq<T>, steps: nat) -> bool {
    unwrapped(descending, s, steps) && !has_step(descending, advance_by(descending, s, steps))
}

/// There is only one number of advances after which the walk stands at its
/// last rearrangement without having wrapped round.
pub proof fn lemma_end_is_unique<T: PartialOrd>(descending: bool, s: Seq<T>, one: nat, other: nat)
    requires
        ends_after(descending, s, one),
        ends_after(descending, s, other),
    ensures
        one == other,
{
    if one < other {
        assert(has_step(descending, advance_by(descending, s, one)));
    }
    if other < one {
        assert(has_step(descending, advance_by(descending, s, other)));
    }
}

/// The test "does not come before `x`".
pub open spec fn not_before<T: PartialOrd>(descending: bool, x: T) -> spec_fn(T) -> bool {
    |e: T| !before(descending, e, x)
}

/// Where each element passes the test `whole` exactly if it passes one of
/// `one` and `other`, and none passes both, the count for `whole` is the sum of
/// the counts for the two.
proof fn lemma_count_split<T>(
    s: Seq<T>,
    whole: spec_fn(T) -> bool,
    one: spec_fn(T) -> bool,
    other: spec_fn(T) -> bool,
)
    requires
        forall|i: int|
            0 <= i < s.len() ==> whole(#[trigger] s[i]) == (one(s[i]) || other(s[i])),
        forall|i: int| 0 <= i < s.len() ==> !(one(#[trigger] s[i]) && other(s[i])),
    ensures
        count(s, whole) == count(s, one) + count(s, other),
    decreases s.len(),
{
    if s.len() == 0 {
        crate::occurrences::lemma_count_uniform(s, whole);
        crate::occurrences::lemma_count_uniform(s, one);
        crate::occurrences::lemma_count_uniform(s, other);
    } else {
        let head = s.drop_last();
        assert forall|i: int| 0 <= i < head.len() implies whole(#[trigger] head[i]) == (one(head[i])
            || other(head[i])) && !(one(head[i]) && other(head[i])) by {
            assert(head[i] == s[i]);
        }
        lemma_count_split(head, whole, one, other);
        assert(s =~= head.push(s.last()));
        assert(s.last() == s[s.len() - 1]);
        lemma_count_push(head, s.last(), whole);
        lemma_count_push(head, s.last(), one);
        lemma_count_push(head, s.last(), other);
    }
}

/// A rearrangement behind the same first element is a rearrangement of the
/// whole.
proof fn lemma_same_head_permutes<T>(x: T, u: Seq<T>, t: Seq<T>)
    requires
        permutation_of(u, t),
    ensures
        permutation_of(seq![x] + u, seq![x] + t),
{
    vstd::seq_lib::lemma_multiset_commutative(seq![x], u);
    vstd::seq_lib::lemma_multiset_commutative(seq![x], t);
}

/// Where the part behind the first element has no step and the first element
/// does not come before the one behind it, the whole has no step, and the
/// first element comes before none of the others.
proof fn lemma_head_is_last<T: Ord>(descending: bool, x: T, u: Seq<T>)
    requires
        total_order::<T>(),
        !has_step(descending, u),
        u.len() > 0 ==> !before(descending, x, u[0]),
    ensures
        !has_step(descending, seq![x] + u),
        forall|j: int| 0 <= j < u.len() + 1 ==> !before(descending, x, #[trigger] (seq![x] + u)[j]),
{
    let s = seq![x] + u;
    assert forall|j: int| !is_step(descending, s, j) by {
        if 0 < j && j + 1 < s.len() {
            assert(s[j] == u[j - 1] && s[j + 1] == u[j]);
            assert(!is_step(descending, u, j - 1));
        }
    }
    lemma_no_step_falls(descending, u, 0);
    assert forall|j: int| 0 <= j < u.len() + 1 implies !before(descending, x, #[trigger] s[j]) by {
        lemma_before_trichotomy(descending, x, x);
        if j > 1 {
            assert(!before(descending, u[0], u[j - 1]));
            lemma_before_transitive(descending, x, u[0], u[j - 1]);
        }
    }
}

/// Where the part behind the first element has no step and the first element
/// comes before the one behind it, advancing brings to the front the least
/// of the elements that the first one comes before, and behind it the rest
/// in rising order.
proof fn lemma_head_moves_on<T: Ord>(descending: bool, x: T, u: Seq<T>)
    requires
        total_order::<T>(),
        !has_step(descending, u),
        u.len() > 0,
        before(descending, x, u[0]),
    ensures
        has_step(descending, seq![x] + u),
        advance(descending, seq![x] + u).len() == u.len() + 1,
        permutation_of(advance(descending, seq![x] + u), seq![x] + u),
        rises_from(descending, advance(descending, seq![x] + u).drop_first(), 0),
        before(descending, x, advance(descending, seq![x] + u)[0]),
        forall|j: int|
            0 <= j < u.len() + 1 ==> (before(descending, x, #[trigger] (seq![x] + u)[j])
                <==> !before(descending, (seq![x] + u)[j], advance(descending, seq![x] + u)[0])),
{
    let s = seq![x] + u;
    let w = advance(descending, s);
    assert(is_step(descending, s, 0)) by {
        assert(s[0] == x && s[1] == u[0]);
    }
    assert forall|j: int| 0 < j implies !is_step(descending, s, j) by {
        if j + 1 < s.len() {
            assert(s[j] == u[j - 1] && s[j + 1] == u[j]);
            assert(!is_step(descending, u, j - 1));
        }
    }
    assert(is_pivot(descending, s, 0));
    lemma_pivot_exists(descending, s);
    let k = partner(descending, s, 0);
    lemma_advance_shape(descending, s, 0, k);
    let y = w[0];
    assert(y == s[k]);
    let rest = w.drop_first();
    assert forall|a: int, b: int| 0 <= a < b < rest.len() implies !before(
        descending,
        #[trigger] rest[b],
        #[trigger] rest[a],
    ) by {
        assert(rest[a] == w[a + 1] && rest[b] == w[b + 1]);
    }
    assert forall|j: int| 0 <= j < u.len() + 1 implies (before(descending, x, #[trigger] s[j])
        <==> !before(descending, s[j], y)) by {
        lemma_before_trichotomy(descending, x, y);
        lemma_before_trichotomy(descending, y, y);
        lemma_before_trichotomy(descending, x, x);
        if j == 0 {
        } else if j < k {
            assert(!before(descending, s[j], s[k]));
        } else if j == k {
        } else {
            assert(!before(descending, x, s[j]));
            lemma_before_transitive(descending, s[j], x, y);
        }
    }
}

/// From a sequence whose part behind the first element is in rising order,
/// the walk comes to its last rearrangement after the number of advances that
/// this lemma returns. One more than that number is the number of
/// rearrangements from this one on: multiplied by the product of the
/// factorials of the occurrences, it gives the factorial of the length of the
/// part behind the first element, times the number of elements that do not
/// come before the first one.
proof fn lemma_count_from<T: Ord>(descending: bool, x: T, t: Seq<T>) -> (steps: nat)
    requires
        total_order::<T>(),
        rises_from(descending, t, 0),
    ensures
        ends_after(descending, seq![x] + t, steps),
        (steps + 1) * repeats(seq![x] + t) == factorial(t.len()) * count(
            seq![x] + t,
            not_before(descending, x),
        ),
    decreases t.len(), count(seq![x] + t, not_before(descending, x)),
{
    let s = seq![x] + t;
    let n = t.len();
    let at_x = not_before(descending, x);
    let like_x = equal_to(x);
    lemma_before_trichotomy(descending, x, x);
    assert(s =~= t.insert(0, x));
    lemma_repeats_insert(t, 0, x);
    lemma_count_insert(t, 0, x, like_x);
    lemma_count_insert(t, 0, x, at_x);
    if n == 0 {
        assert(t =~= Seq::<T>::empty());
        assert(repeats(t) == 1);
        crate::occurrences::lemma_count_uniform(t, like_x);
        crate::occurrences::lemma_count_uniform(t, at_x);
        assert(!has_step(descending, s)) by {
            assert forall|j: int| !is_step(descending, s, j) by {}
        }
        assert(factorial(0) == 1);
        assert(repeats(s) == 1) by (nonlinear_arith)
            requires
                repeats(s) == repeats(t) * (occurrences(t, x) + 1),
                repeats(t) == 1,
                occurrences(t, x) == 0,
        ;
        assert(count(s, at_x) == 1);
        assert((0 + 1) * repeats(s) == factorial(t.len()) * count(s, at_x)) by (nonlinear_arith)
            requires
                repeats(s) == 1,
                factorial(t.len()) == 1,
                count(s, at_x) == 1,
        ;
        return 0;
    }
    // The part behind the first element walks to its own last rearrangement.
    let t0 = t[0];
    let t1 = t.drop_first();
    assert(t =~= seq![t0] + t1);
    assert forall|a: int, b: int| 0 <= a < b < t1.len() implies !before(
        descending,
        #[trigger] t1[b],
        #[trigger] t1[a],
    ) by {
        assert(t1[a] == t[a + 1] && t1[b] == t[b + 1]);
    }
    let behind = lemma_count_from(descending, t0, t1);
    let u = advance_by(descending, t, behind);
    assert(count(t, not_before(descending, t0)) == n) by {
        assert forall|i: int| 0 <= i < t.len() implies not_before(descending, t0)(
            #[trigger] t[i],
        ) by {
            lemma_before_trichotomy(descending, t0, t0);
        }
        crate::occurrences::lemma_count_uniform(t, not_before(descending, t0));
    }
    assert(factorial(n) == n * factorial((n - 1) as nat));
    let full = factorial(n);
    let a = behind + 1;
    let r = repeats(t);
    let c = occurrences(s, x);
    let whole = repeats(s);
    assert(a * r == full) by (nonlinear_arith)
        requires
            a * r == factorial((n - 1) as nat) * n,
            full == n * factorial((n - 1) as nat),
    ;
    assert(a * whole == full * c) by (nonlinear_arith)
        requires
            a * r == full,
            whole == r * c,
    ;
    lemma_walk_keeps_head(descending, x, t, behind);
    lemma_walk_permutes(descending, t, behind);
    lemma_permutation_length(u, t);
    lemma_same_head_permutes(x, u, t);
    let su = seq![x] + u;
    assert(advance_by(descending, s, behind) == su);
    if before(descending, x, u[0]) {
        // The first element gives way to the next greater one, and the walk
        // goes on from there.
        lemma_head_moves_on(descending, x, u);
        let w = advance(descending, su);
        let y = w[0];
        let rest = w.drop_first();
        assert(w =~= seq![y] + rest);
        let at_y = not_before(descending, y);
        assert(count(su, at_x) == count(su, like_x) + count(su, at_y)) by {
            assert forall|i: int| 0 <= i < su.len() implies at_x(#[trigger] su[i]) == (like_x(su[i])
                || at_y(su[i])) && !(like_x(su[i]) && at_y(su[i])) by {
                lemma_before_trichotomy(descending, su[i], x);
                lemma_before_trichotomy(descending, x, su[i]);
                lemma_before_transitive(descending, su[i], x, y);
            }
            lemma_count_split(su, at_x, like_x, at_y);
        }
        assert(c >= 1);
        let more = lemma_count_from(descending, y, rest);
        lemma_repeats_of_permutation(w, s);
        let steps = behind + 1 + more;
        let b = more + 1;
        let e = count(s, at_y);
        assert((a + b) * whole == full * (c + e)) by (nonlinear_arith)
            requires
                a * whole == full * c,
                b * whole == full * e,
        ;
        assert(advance_by(descending, s, behind + 1) == w);
        assert forall|m: nat| m < steps implies has_step(
            descending,
            #[trigger] advance_by(descending, s, m),
        ) by {
            if m > behind {
                let on = (m - (behind + 1)) as nat;
                lemma_advance_by_sum(descending, s, behind + 1, on);
                assert(has_step(descending, advance_by(descending, w, on)));
            }
        }
        lemma_advance_by_sum(descending, s, behind + 1, more);
        steps
    } else {
        // The first element is the greatest: the whole is at its last
        // rearrangement.
        lemma_head_is_last(descending, x, u);
        assert(count(su, at_x) == count(su, like_x)) by {
            let never = |e: T| false;
            assert forall|i: int| 0 <= i < su.len() implies at_x(#[trigger] su[i]) == (like_x(su[i])
                || never(su[i])) && !(like_x(su[i]) && never(su[i])) by {
                lemma_before_trichotomy(descending, su[i], x);
                lemma_before_trichotomy(descending, x, su[i]);
            }
            lemma_count_split(su, at_x, like_x, never);
            crate::occurrences::lemma_count_uniform(su, never);
        }
        behind
    }
}

/// From the first rearrangement the walk comes to the last one after the
/// number of advances that this lemma returns. One more than that number,
/// multiplied by the product of the factorials of the occurrences, is the
/// factorial of the length.
proof fn lemma_count_all<T: Ord>(descending: bool, s: Seq<T>) -> (steps: nat)
    requires
        total_order::<T>(),
        is_last(!descending, s),
    ensures
        ends_after(descending, s, steps),
        (steps + 1) * repeats(s) == factorial(s.len()),
{
    let opposite = !descending;
    lemma_last_iff_no_step(opposite, s);
    assert(rises_from(descending, s, 0));
    if s.len() == 0 {
        assert(!has_step(descending, s)) by {
            assert forall|j: int| !is_step(descending, s, j) by {}
        }
        assert(factorial(0) == 1);
        assert(repeats(s) == 1);
        0
    } else {
        let x = s[0];
        let t = s.drop_first();
        assert(s =~= seq![x] + t);
        assert forall|a: int, b: int| 0 <= a < b < t.len() implies !before(
            descending,
            #[trigger] t[b],
            #[trigger] t[a],
        ) by {
            assert(t[a] == s[a + 1] && t[b] == s[b + 1]);
        }
        let steps = lemma_count_from(descending, x, t);
        assert(count(s, not_before(descending, x)) == s.len()) by {
            assert forall|i: int| 0 <= i < s.len() implies not_before(descending, x)(
                #[trigger] s[i],
            ) by {
                lemma_before_trichotomy(descending, x, x);
            }
            crate::occurrences::lemma_count_uniform(s, not_before(descending, x));
        }
        assert(factorial(s.len()) == s.len() * factorial((s.len() - 1) as nat));
        assert(t.len() == (s.len() - 1) as nat);
        assert(factorial(t.len()) * s.len() == factorial(s.len())) by (nonlinear_arith)
            requires
                factorial(s.len()) == s.len() * factorial(t.len()),
        ;
        steps
    }
}

/// Started at the first rearrangement, the walk meets the last one after the
/// number of advances that this lemma returns, without wrapping round before,
/// and the next advance brings it back to the first. One more than that
/// number is the number of rearrangements: the factorial of the length,
/// divided by the factorial of the number of occurrences of each value.
pub proof fn lemma_walk_counts<T: Ord>(descending: bool, s: Seq<T>) -> (steps: nat)
    requires
        total_order::<T>(),
        is_last(!descending, s),
    ensures
        ends_after(descending, s, steps),
        is_last(descending, advance_by(descending, s, steps)),
        lex_same(advance_by(descending, s, steps + 1), s),
        (steps + 1) * repeats(s) == factorial(s.len()),
{
    let steps = lemma_walk_ends(descending, s);
    lemma_last_iff_no_step(descending, advance_by(descending, s, steps));
    let counted = lemma_count_all(descending, s);
    lemma_end_is_unique(descending, s, steps, counted);
    steps
}

} // verus!
