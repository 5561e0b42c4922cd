//! The step from one arrangement of a sequence to the next one in
//! lexicographic order, in ascending and in descending direction, and what
//! holds of it.
//!
//! In ascending direction a *step* is an ascent, a position whose element is
//! smaller than its right neighbour; in descending direction it is a descent.
//! The *pivot* is the last step, its *partner* the last position behind it
//! whose element the pivot's element comes before. Advancing swaps the two and
//! reverses what lies behind the pivot; where there is no step it reverses the
//! whole sequence.
use crate::lex::lemma_agree_symmetric;
use crate::lex::lex_before;
use crate::lex::lex_before_at;
use crate::lex::lex_lt;
use crate::lex::lex_same;
use crate::occurrences::agree;
use crate::occurrences::lemma_permutation_length;
use crate::occurrences::lemma_rest_holds_equal;
use crate::occurrences::permutation_of;
use crate::order::before;
use crate::order::lemma_before_transitive;
use crate::order::lemma_before_trichotomy;
use crate::order::same;
use crate::order::total_order;
use vstd::prelude::*;

verus! {

/// The element at `i` comes before its right neighbour.
pub open spec fn is_step<T: PartialOrd>(descending: bool, s: Seq<T>, i: int) -> bool {
    0 <= i && i + 1 < s.len() && before(descending, s[i], s[i + 1])
}

/// Some element comes before its right neighbour.
pub open spec fn has_step<T: PartialOrd>(descending: bool, s: Seq<T>) -> bool {
    exists|i: int| is_step(descending, s, i)
}

/// `i` is the last step of `s`.
pub open spec fn is_pivot<T: PartialOrd>(descending: bool, s: Seq<T>, i: int) -> bool {
    is_step(descending, s, i) && forall|j: int| i < j ==> !is_step(descending, s, j)
}

/// The last step of `s`, where it has one.
pub open spec fn pivot<T: PartialOrd>(descending: bool, s: Seq<T>) -> int {
    choose|i: int| is_pivot(descending, s, i)
}

/// `k` is the last position behind `i` whose element the element at `i` comes
/// before.
pub open spec fn is_partner<T: PartialOrd>(descending: bool, s: Seq<T>, i: int, k: int) -> bool {
    &&& 0 <= i < k < s.len()
    &&& before(descending, s[i], s[k])
    &&& forall|j: int| k < j < s.len() ==> !before(descending, s[i], #[trigger] s[j])
}

/// The last position behind `i` whose element the element at `i` comes
/// before, where there is one.
pub open spec fn partner<T: PartialOrd>(descending: bool, s: Seq<T>, i: int) -> int {
    choose|k: int| is_partner(descending, s, i, k)
}

/// `s` with the elements at `i` and `k` exchanged.
pub open spec fn swapped<T>(s: Seq<T>, i: int, k: int) -> Seq<T> {
    s.update(i, s[k]).update(k, s[i])
}

/// `s` with the part from `i` on in reverse order.
pub open spec fn reversed_from<T>(s: Seq<T>, i: int) -> Seq<T> {
    s.subrange(0, i) + s.subrange(i, s.len() as int).reverse()
}

/// The arrangement that follows `s`: pivot and partner exchanged and the part
/// behind the pivot reversed, or, where `s` has no step, all of `s` reversed.
pub open spec fn advance<T: PartialOrd>(descending: bool, s: Seq<T>) -> Seq<T> {
    if has_step(descending, s) {
        let i = pivot(descending, s);
        reversed_from(swapped(s, i, partner(descending, s, i)), i + 1)
    } else {
        s.reverse()
    }
}

/// Some element is smaller than its right neighbour.
pub open spec fn has_ascent<T: PartialOrd>(s: Seq<T>) -> bool {
    has_step(false, s)
}

/// Some element is greater than its right neighbour.
pub open spec fn has_descent<T: PartialOrd>(s: Seq<T>) -> bool {
    has_step(true, s)
}

/// The arrangement that follows `s` in ascending lexicographic order, or the
/// first of all where `s` is the last.
pub open spec fn next_permutation<T: PartialOrd>(s: Seq<T>) -> Seq<T> {
    advance(false, s)
}

/// The arrangement that precedes `s` in ascending lexicographic order, or the
/// last of all where `s` is the first.
pub open spec fn previous_permutation<T: PartialOrd>(s: Seq<T>) -> Seq<T> {
    advance(true, s)
}

/// From `from` on no element of `s` comes before a later one.
pub open spec fn falls_from<T: PartialOrd>(descending: bool, s: Seq<T>, from: int) -> bool {
    forall|a: int, b: int|
        #![trigger s[a], s[b]]
        from <= a < b < s.len() ==> !before(descending, s[a], s[b])
}

/// From `from` on no element of `s` comes before an earlier one.
pub open spec fn rises_from<T: PartialOrd>(descending: bool, s: Seq<T>, from: int) -> bool {
    forall|a: int, b: int|
        #![trigger s[a], s[b]]
        from <= a < b < s.len() ==> !before(descending, s[b], s[a])
}

/// No element of `s` is smaller than an earlier one.
pub open spec fn is_ascending<T: PartialOrd>(s: Seq<T>) -> bool {
    rises_from(false, s, 0)
}

/// No element of `s` is greater than an earlier one.
pub open spec fn is_descending<T: PartialOrd>(s: Seq<T>) -> bool {
    rises_from(true, s, 0)
}

/// No rearrangement of `s` comes after `s` in the given direction.
pub open spec fn is_last<T: PartialOrd>(descending: bool, s: Seq<T>) -> bool {
    forall|p: Seq<T>| #[trigger] permutation_of(p, s) ==> !lex_before(descending, s, p)
}

/// `t` is the rearrangement of `s` that follows it in the given direction: it
/// comes after `s`, and no rearrangement of `s` lies between the two.
pub open spec fn follows<T: PartialOrd>(descending: bool, s: Seq<T>, t: Seq<T>) -> bool {
    &&& permutation_of(t, s)
    &&& lex_before(descending, s, t)
    &&& forall|p: Seq<T>| #[trigger]
        permutation_of(p, s) && lex_before(descending, s, p) ==> !lex_before(descending, p, t)
}

/// No rearrangement of `s` is lexicographically greater than `s`.
pub open spec fn is_last_permutation<T: PartialOrd>(s: Seq<T>) -> bool {
    is_last(false, s)
}

/// No rearrangement of `s` is lexicographically smaller than `s`.
pub open spec fn is_first_permutation<T: PartialOrd>(s: Seq<T>) -> bool {
    is_last(true, s)
}

/// `t` is the least of the rearrangements of `s` that are lexicographically
/// greater than `s`.
pub open spec fn is_successor<T: PartialOrd>(s: Seq<T>, t: Seq<T>) -> bool {
    follows(false, s, t)
}

/// `t` is the greatest of the rearrangements of `s` that are lexicographically
/// smaller than `s`.
pub open spec fn is_predecessor<T: PartialOrd>(s: Seq<T>, t: Seq<T>) -> bool {
    follows(true, s, t)
}

/// There is only one last step.
pub proof fn lemma_pivot_unique<T: PartialOrd>(descending: bool, s: Seq<T>, i: int)
    requires
        is_pivot(descending, s, i),
    ensures
        has_step(descending, s),
        pivot(descending, s) == i,
{
    let j = pivot(descending, s);
    assert(is_pivot(descending, s, j));
    if j < i {
        assert(!is_step(descending, s, i));
    }
    if i < j {
        assert(!is_step(descending, s, j));
    }
}

/// There is only one partner of a position.
pub proof fn lemma_partner_unique<T: PartialOrd>(descending: bool, s: Seq<T>, i: int, k: int)
    requires
        is_partner(descending, s, i, k),
    ensures
        partner(descending, s, i) == k,
{
    let m = partner(descending, s, i);
    assert(is_partner(descending, s, i, m));
    if m < k {
        assert(!before(descending, s[i], s[k]));
    }
    if k < m {
        assert(!before(descending, s[i], s[m]));
    }
}

/// With pivot `i` and partner `k`, advancing exchanges the two and reverses
/// what lies behind `i`.
pub proof fn lemma_advance_unfold<T: PartialOrd>(descending: bool, s: Seq<T>, i: int, k: int)
    requires
        is_pivot(descending, s, i),
        is_partner(descending, s, i, k),
    ensures
        has_step(descending, s),
        advance(descending, s) == reversed_from(swapped(s, i, k), i + 1),
{
    lemma_pivot_unique(descending, s, i);
    lemma_partner_unique(descending, s, i, k);
}

/// The last step at or before `j`, where all steps lie there.
proof fn lemma_find_pivot<T: PartialOrd>(descending: bool, s: Seq<T>, j: int) -> (i: int)
    requires
        exists|m: int| m <= j && is_step(descending, s, m),
        forall|m: int| j < m ==> !is_step(descending, s, m),
    ensures
        is_pivot(descending, s, i),
    decreases j,
{
    let m = choose|m: int| m <= j && is_step(descending, s, m);
    if is_step(descending, s, j) {
        j
    } else {
        assert(m <= j - 1);
        lemma_find_pivot(descending, s, j - 1)
    }
}

/// The last position at or before `j` whose element the element at `i` comes
/// before, where all such positions behind `i` lie there.
proof fn lemma_find_partner<T: PartialOrd>(descending: bool, s: Seq<T>, i: int, j: int) -> (k: int)
    requires
        0 <= i < j < s.len(),
        before(descending, s[i], s[i + 1]),
        forall|m: int| j < m < s.len() ==> !before(descending, s[i], #[trigger] s[m]),
    ensures
        is_partner(descending, s, i, k),
    decreases j,
{
    if before(descending, s[i], s[j]) {
        j
    } else {
        lemma_find_partner(descending, s, i, j - 1)
    }
}

/// A sequence with a step has a pivot, and the pivot has a partner.
pub proof fn lemma_pivot_exists<T: PartialOrd>(descending: bool, s: Seq<T>)
    requires
        has_step(descending, s),
    ensures
        is_pivot(descending, s, pivot(descending, s)),
        is_partner(descending, s, pivot(descending, s), partner(descending, s, pivot(descending, s))),
{
    let m = choose|m: int| is_step(descending, s, m);
    let i = lemma_find_pivot(descending, s, s.len() - 2);
    lemma_pivot_unique(descending, s, i);
    let k = lemma_find_partner(descending, s, i, s.len() - 1);
    lemma_partner_unique(descending, s, i, k);
}

/// Where no step lies at `from` or later, no element from `from` on comes
/// before a later one.
pub proof fn lemma_no_step_falls<T: Ord>(descending: bool, s: Seq<T>, from: int)
    requires
        total_order::<T>(),
        0 <= from,
        forall|j: int| from <= j ==> !is_step(descending, s, j),
    ensures
        falls_from(descending, s, from),
{
    assert forall|a: int, b: int| from <= a < b < s.len() implies !before(
        descending,
        #[trigger] s[a],
        #[trigger] s[b],
    ) by {
        lemma_no_rise_between(descending, s, a, b);
    }
}

/// Where no step lies at `a` or later, the element at `a` comes before none
/// of the later ones.
proof fn lemma_no_rise_between<T: Ord>(descending: bool, s: Seq<T>, a: int, b: int)
    requires
        total_order::<T>(),
        0 <= a < b < s.len(),
        forall|j: int| a <= j ==> !is_step(descending, s, j),
    ensures
        !before(descending, s[a], s[b]),
    decreases b - a,
{
    assert(!is_step(descending, s, a));
    if a + 1 < b {
        lemma_no_rise_between(descending, s, a + 1, b);
        lemma_before_transitive(descending, s[a], s[a + 1], s[b]);
    }
}

/// Exchanging two elements rearranges the sequence.
pub proof fn lemma_swapped_permutes<T>(s: Seq<T>, i: int, k: int)
    requires
        0 <= i < s.len(),
        0 <= k < s.len(),
    ensures
        permutation_of(swapped(s, i, k), s),
{
    broadcast use vstd::multiset::group_multiset_axioms;

    let u = s.update(i, s[k]);
    vstd::seq_lib::to_multiset_update(s, i, s[k]);
    vstd::seq_lib::to_multiset_update(u, k, s[i]);
    vstd::seq_lib::to_multiset_contains(s, s[i]);
    vstd::seq_lib::to_multiset_contains(s, s[k]);
    assert(s.contains(s[i]) && s.contains(s[k]));
    if i == k {
        assert(swapped(s, i, k) =~= s);
    } else {
        assert(swapped(s, i, k).to_multiset() =~= s.to_multiset());
    }
}

/// Reversing a part at the end rearranges the sequence, and says where each
/// element goes.
pub proof fn lemma_reversed_from<T>(s: Seq<T>, i: int)
    requires
        0 <= i <= s.len(),
    ensures
        permutation_of(reversed_from(s, i), s),
        reversed_from(s, i).len() == s.len(),
        forall|j: int| 0 <= j < i ==> #[trigger] reversed_from(s, i)[j] == s[j],
        forall|j: int|
            i <= j < s.len() ==> #[trigger] reversed_from(s, i)[j] == s[s.len() - 1 - (j - i)],
{
    let head = s.subrange(0, i);
    let tail = s.subrange(i, s.len() as int);
    assert(s =~= head + tail);
    vstd::seq_lib::lemma_multiset_commutative(head, tail);
    vstd::seq_lib::lemma_multiset_commutative(head, tail.reverse());
    tail.lemma_reverse_to_multiset();
}

/// What advancing makes of a sequence with pivot `i` and partner `k`: the
/// part before `i` stays, the partner's element comes to `i`, and what follows
/// is a rearrangement of the rest in which no element comes before an earlier
/// one.
pub proof fn lemma_advance_shape<T: Ord>(descending: bool, s: Seq<T>, i: int, k: int)
    requires
        total_order::<T>(),
        is_pivot(descending, s, i),
        is_partner(descending, s, i, k),
    ensures
        advance(descending, s) == reversed_from(swapped(s, i, k), i + 1),
        advance(descending, s).len() == s.len(),
        permutation_of(advance(descending, s), s),
        forall|j: int| 0 <= j < i ==> #[trigger] advance(descending, s)[j] == s[j],
        advance(descending, s)[i] == s[k],
        forall|j: int|
            i < j < s.len() ==> #[trigger] advance(descending, s)[j] == swapped(s, i, k)[s.len()
                + i - j],
        falls_from(descending, s, i + 1),
        falls_from(descending, swapped(s, i, k), i + 1),
        rises_from(descending, advance(descending, s), i + 1),
        forall|j: int| i < j <= k ==> before(descending, s[i], #[trigger] s[j]),
{
    let n = s.len() as int;
    let u = swapped(s, i, k);
    let t = reversed_from(u, i + 1);
    lemma_advance_unfold(descending, s, i, k);
    lemma_swapped_permutes(s, i, k);
    lemma_reversed_from(u, i + 1);
    lemma_no_step_falls(descending, s, i + 1);
    assert forall|j: int| i < j <= k implies before(descending, s[i], #[trigger] s[j]) by {
        if j < k {
            assert(!before(descending, s[j], s[k]));
            lemma_before_transitive(descending, s[i], s[k], s[j]);
        }
    }
    assert forall|a: int, b: int| i + 1 <= a < b < n implies !before(
        descending,
        #[trigger] u[a],
        #[trigger] u[b],
    ) by {
        assert(!before(descending, s[a], s[b]));
        if b == k {
            assert(before(descending, s[i], s[a]));
            lemma_before_trichotomy(descending, s[i], s[a]);
        } else if a == k {
            assert(!before(descending, s[i], s[b]));
        }
    }
    assert forall|a: int, b: int| i + 1 <= a < b < n implies !before(
        descending,
        #[trigger] t[b],
        #[trigger] t[a],
    ) by {
        assert(t[a] == u[n + i - a]);
        assert(t[b] == u[n + i - b]);
        assert(!before(descending, u[n + i - b], u[n + i - a]));
    }
}

/// Where `p` rearranges `s` and is equal to it before `e`, and from `e` on no
/// element of `s` comes before a later one, the element of `s` at `e` does
/// not come before that of `p`.
proof fn lemma_falling_rest<T: Ord>(descending: bool, s: Seq<T>, p: Seq<T>, from: int, e: int)
    requires
        total_order::<T>(),
        falls_from(descending, s, from),
        0 <= from <= e < s.len(),
        permutation_of(p, s),
        agree(s, p, e),
    ensures
        e < p.len(),
        !before(descending, s[e], p[e]),
{
    lemma_permutation_length(p, s);
    if before(descending, s[e], p[e]) {
        lemma_rest_holds_equal(s, p, e, e);
        let j = choose|j: int| e <= j < s.len() && same(#[trigger] s[j], p[e]);
        lemma_before_trichotomy(descending, s[j], p[e]);
        lemma_before_transitive(descending, s[e], p[e], s[j]);
        lemma_before_trichotomy(descending, s[e], s[e]);
        assert(e < j);
        assert(!before(descending, s[e], s[j]));
    }
}

/// Where `p` rearranges `t` and is equal to it before `f`, and from `f` on no
/// element of `t` comes before an earlier one, the element of `p` at `f` does
/// not come before that of `t`.
proof fn lemma_rising_rest<T: Ord>(descending: bool, t: Seq<T>, p: Seq<T>, from: int, f: int)
    requires
        total_order::<T>(),
        rises_from(descending, t, from),
        0 <= from <= f < t.len(),
        permutation_of(p, t),
        agree(p, t, f),
    ensures
        f < p.len(),
        !before(descending, p[f], t[f]),
{
    lemma_permutation_length(p, t);
    if before(descending, p[f], t[f]) {
        lemma_agree_symmetric(p, t, f);
        lemma_rest_holds_equal(t, p, f, f);
        let j = choose|j: int| f <= j < t.len() && same(#[trigger] t[j], p[f]);
        lemma_before_transitive(descending, t[j], p[f], t[f]);
        lemma_before_trichotomy(descending, t[f], t[f]);
        assert(f < j);
        assert(!before(descending, t[j], t[f]));
    }
}

/// A sequence without a step is the last of its rearrangements, and its
/// reverse is the first of them.
pub proof fn lemma_no_step_is_last<T: Ord>(descending: bool, s: Seq<T>)
    requires
        total_order::<T>(),
        !has_step(descending, s),
    ensures
        is_last(descending, s),
        advance(descending, s) == s.reverse(),
        permutation_of(advance(descending, s), s),
        is_last(!descending, advance(descending, s)),
        rises_from(!descending, s, 0),
        rises_from(descending, advance(descending, s), 0),
{
    let t = s.reverse();
    let n = s.len() as int;
    let opposite = !descending;
    s.lemma_reverse_to_multiset();
    lemma_no_step_falls(descending, s, 0);
    assert forall|a: int, b: int| 0 <= a < b < n implies !before(
        opposite,
        #[trigger] s[b],
        #[trigger] s[a],
    ) by {
        lemma_before_trichotomy(descending, s[b], s[a]);
    }
    assert forall|p: Seq<T>| #[trigger] permutation_of(p, s) implies !lex_before(
        descending,
        s,
        p,
    ) by {
        lemma_permutation_length(p, s);
        if exists|e: int| lex_before_at(descending, s, p, e) {
            let e = choose|e: int| lex_before_at(descending, s, p, e);
            lemma_falling_rest(descending, s, p, 0, e);
        }
    }
    assert(rises_from(descending, t, 0)) by {
        assert forall|a: int, b: int| 0 <= a < b < n implies !before(
            descending,
            #[trigger] t[b],
            #[trigger] t[a],
        ) by {
            assert(!before(descending, s[n - 1 - b], s[n - 1 - a]));
        }
    }
    assert forall|p: Seq<T>| #[trigger] permutation_of(p, t) implies !lex_before(
        opposite,
        t,
        p,
    ) by {
        lemma_permutation_length(p, t);
        crate::lex::lemma_lex_flip(descending, t, p);
        if exists|f: int| lex_before_at(descending, p, t, f) {
            let f = choose|f: int| lex_before_at(descending, p, t, f);
            lemma_rising_rest(descending, t, p, 0, f);
        }
    }
}

/// Advancing a sequence that has a step gives the rearrangement that follows
/// it: one that comes after it, with no rearrangement between the two.
pub proof fn lemma_advance_is_successor<T: Ord>(descending: bool, s: Seq<T>)
    requires
        total_order::<T>(),
        has_step(descending, s),
    ensures
        follows(descending, s, advance(descending, s)),
{
    let i = pivot(descending, s);
    let k = partner(descending, s, i);
    let t = advance(descending, s);
    let n = s.len() as int;
    lemma_pivot_exists(descending, s);
    lemma_advance_shape(descending, s, i, k);
    assert(lex_before_at(descending, s, t, i)) by {
        assert forall|j: int| 0 <= j < i implies same(#[trigger] s[j], t[j]) by {
            lemma_before_trichotomy(descending, s[j], s[j]);
        }
    }
    assert forall|p: Seq<T>| #[trigger]
        permutation_of(p, s) && lex_before(descending, s, p) implies !lex_before(
        descending,
        p,
        t,
    ) by {
        lemma_permutation_length(p, s);
        let e = choose|e: int| lex_before_at(descending, s, p, e);
        assert(lex_before_at(descending, s, p, e));
        if exists|f: int| lex_before_at(descending, p, t, f) {
            let f = choose|f: int| lex_before_at(descending, p, t, f);
            lemma_between_is_empty(descending, s, p, i, k, e, f);
        }
    }
}

/// A rearrangement `p` of `s` that comes after `s` by position `e`, and is
/// equal to the advanced sequence before `f`, does not come before it at `f`.
proof fn lemma_between_is_empty<T: Ord>(
    descending: bool,
    s: Seq<T>,
    p: Seq<T>,
    i: int,
    k: int,
    e: int,
    f: int,
)
    requires
        total_order::<T>(),
        is_pivot(descending, s, i),
        is_partner(descending, s, i, k),
        permutation_of(p, s),
        lex_before_at(descending, s, p, e),
        0 <= f < p.len(),
        agree(p, advance(descending, s), f),
    ensures
        !before(descending, p[f], advance(descending, s)[f]),
{
    let t = advance(descending, s);
    lemma_permutation_length(p, s);
    lemma_advance_shape(descending, s, i, k);
    lemma_agree_symmetric(s, p, e);
    if !before(descending, p[f], t[f]) {
    } else if e > i {
        lemma_falling_rest(descending, s, p, i + 1, e);
    } else if f < e {
        // Before `e` the three sequences are equal.
        assert(same(p[f], s[f]));
        assert(t[f] == s[f]);
        lemma_before_trichotomy(descending, p[f], t[f]);
    } else if e < i {
        assert(t[e] == s[e]);
        if f == e {
            lemma_before_trichotomy(descending, s[e], p[e]);
        } else {
            assert(same(p[e], t[e]));
            lemma_before_trichotomy(descending, p[e], s[e]);
        }
    } else if f == i {
        // The element of `p` at the pivot lies strictly between the pivot's
        // element and the partner's, and the rest of `s` holds none such.
        lemma_rest_holds_equal(s, p, i, i);
        let j = choose|j: int| i <= j < s.len() && same(#[trigger] s[j], p[i]);
        lemma_before_trichotomy(descending, s[j], p[i]);
        lemma_before_transitive(descending, s[i], p[i], s[j]);
        lemma_before_transitive(descending, s[j], p[i], s[k]);
        lemma_before_trichotomy(descending, s[i], s[i]);
        lemma_before_trichotomy(descending, s[k], s[k]);
        assert(before(descending, s[i], s[j]));
        assert(before(descending, s[j], s[k]));
        assert(j != i && j != k);
        if j < k {
            assert(!before(descending, s[j], s[k]));
        } else {
            assert(!before(descending, s[i], s[j]));
        }
    } else {
        lemma_rising_rest(descending, t, p, i + 1, f);
    }
}

/// A sequence is the last of its rearrangements exactly where it has no step,
/// and that is where none of its elements comes before a later one.
pub proof fn lemma_last_iff_no_step<T: Ord>(descending: bool, s: Seq<T>)
    requires
        total_order::<T>(),
    ensures
        is_last(descending, s) <==> !has_step(descending, s),
        rises_from(!descending, s, 0) <==> !has_step(descending, s),
{
    if has_step(descending, s) {
        lemma_advance_is_successor(descending, s);
        assert(permutation_of(advance(descending, s), s));
        let i = choose|i: int| is_step(descending, s, i);
        lemma_before_trichotomy(descending, s[i + 1], s[i]);
    } else {
        lemma_no_step_is_last(descending, s);
    }
}

/// Of a sequence with an ascent, the next permutation is the least of the
/// greater rearrangements: it is greater than the sequence, and no
/// rearrangement that is greater than the sequence is smaller than it.
pub proof fn lemma_next_is_least_greater<T: Ord>(s: Seq<T>, p: Seq<T>)
    requires
        total_order::<T>(),
        has_ascent(s),
        permutation_of(p, s),
        lex_lt(s, p),
    ensures
        lex_lt(s, next_permutation(s)),
        !lex_lt(p, next_permutation(s)),
{
    lemma_advance_is_successor(false, s);
}

/// Of a sequence with a descent, the previous permutation is the greatest of
/// the smaller rearrangements: it is smaller than the sequence, and no
/// rearrangement that is smaller than the sequence is greater than it.
pub proof fn lemma_previous_is_greatest_smaller<T: Ord>(s: Seq<T>, p: Seq<T>)
    requires
        total_order::<T>(),
        has_descent(s),
        permutation_of(p, s),
        lex_lt(p, s),
    ensures
        lex_lt(previous_permutation(s), s),
        !lex_lt(previous_permutation(s), p),
{
    lemma_advance_is_successor(true, s);
    crate::lex::lemma_lex_flip(false, s, p);
    crate::lex::lemma_lex_flip(false, s, previous_permutation(s));
    crate::lex::lemma_lex_flip(false, p, previous_permutation(s));
}

/// Advancing in one direction and then in the other gives the sequence back,
/// and the second advance meets a step exactly where the first one did.
pub proof fn lemma_advance_inverse<T: Ord>(descending: bool, s: Seq<T>)
    requires
        total_order::<T>(),
    ensures
        advance(!descending, advance(descending, s)) == s,
        has_step(!descending, advance(descending, s)) == has_step(descending, s),
{
    let opposite = !descending;
    let t = advance(descending, s);
    let n = s.len() as int;
    if has_step(descending, s) {
        let i = pivot(descending, s);
        let k = partner(descending, s, i);
        let u = swapped(s, i, k);
        lemma_pivot_exists(descending, s);
        lemma_advance_shape(descending, s, i, k);
        // The pivot of `s` is the pivot of `t` in the other direction.
        assert(is_step(opposite, t, i)) by {
            assert(t[i + 1] == u[n - 1]);
            lemma_before_trichotomy(descending, t[i], t[i + 1]);
            if k < n - 1 {
                assert(!before(descending, s[i], s[n - 1]));
                lemma_before_transitive(descending, s[n - 1], s[i], s[k]);
            }
        }
        assert forall|j: int| i < j implies !is_step(opposite, t, j) by {
            if j + 1 < n {
                assert(!before(descending, t[j + 1], t[j]));
                lemma_before_trichotomy(descending, t[j], t[j + 1]);
            }
        }
        // The element that left the pivot is its partner there.
        let m = n + i - k;
        assert(t[m] == s[i]);
        assert(is_partner(opposite, t, i, m)) by {
            lemma_before_trichotomy(descending, t[i], t[m]);
            assert forall|j: int| m < j < n implies !before(opposite, t[i], #[trigger] t[j]) by {
                assert(t[j] == s[n + i - j]);
                assert(!before(descending, s[n + i - j], s[k]));
                lemma_before_trichotomy(descending, t[i], t[j]);
            }
        }
        lemma_advance_unfold(opposite, t, i, m);
        let w = swapped(t, i, m);
        lemma_reversed_from(w, i + 1);
        assert(reversed_from(w, i + 1) =~= s) by {
            assert forall|j: int| 0 <= j < n implies reversed_from(w, i + 1)[j] == s[j] by {
                if j > i && j != k {
                    assert(w[n + i - j] == t[n + i - j]);
                    assert(t[n + i - j] == u[j]);
                }
            }
        }
    } else {
        lemma_no_step_is_last(descending, s);
        lemma_no_step_falls(descending, s, 0);
        assert forall|j: int| !is_step(opposite, t, j) by {
            if 0 <= j && j + 1 < n {
                assert(t[j] == s[n - 1 - j]);
                assert(t[j + 1] == s[n - 2 - j]);
                assert(!before(descending, s[n - 2 - j], s[n - 1 - j]));
                lemma_before_trichotomy(descending, t[j], t[j + 1]);
            }
        }
        assert(t.reverse() =~= s);
    }
}

/// `previous` undoes `next`: it gives back the order that `next` found, and
/// it reports a step exactly where `next` did. So away from the ends both
/// calls return `true`; across the wrap from the last permutation to the first
/// and back both return `false`, and the order returns all the same.
pub proof fn lemma_previous_undoes_next<T: Ord>(s: Seq<T>)
    requires
        total_order::<T>(),
    ensures
        previous_permutation(next_permutation(s)) == s,
        has_descent(next_permutation(s)) == has_ascent(s),
{
    lemma_advance_inverse(false, s);
}

/// `next` undoes `previous`: it gives back the order that `previous` found,
/// and it reports a step exactly where `previous` did.
pub proof fn lemma_next_undoes_previous<T: Ord>(s: Seq<T>)
    requires
        total_order::<T>(),
    ensures
        next_permutation(previous_permutation(s)) == s,
        has_ascent(previous_permutation(s)) == has_descent(s),
{
    lemma_advance_inverse(true, s);
}

/// Advancing looks at the elements only through their comparisons: two
/// sequences that are equal position by position have their steps at the same
/// places, and advance to sequences that are equal position by position.
pub proof fn lemma_advance_respects_equality<T: Ord>(descending: bool, a: Seq<T>, b: Seq<T>)
    requires
        total_order::<T>(),
        lex_same(a, b),
    ensures
        has_step(descending, a) == has_step(descending, b),
        lex_same(advance(descending, a), advance(descending, b)),
{
    let n = a.len() as int;
    assert forall|i: int, j: int| 0 <= i < n && 0 <= j < n implies before(descending, a[i], a[j])
        == before(descending, #[trigger] b[i], #[trigger] b[j]) by {
        lemma_before_trichotomy(descending, a[i], b[i]);
        lemma_before_trichotomy(descending, a[j], b[j]);
        lemma_before_transitive(descending, a[i], b[i], b[j]);
        lemma_before_transitive(descending, a[i], b[j], a[j]);
        lemma_before_transitive(descending, b[i], a[i], a[j]);
        lemma_before_transitive(descending, b[i], a[j], b[j]);
    }
    assert forall|i: int| is_step(descending, a, i) == is_step(descending, b, i) by {
        if 0 <= i && i + 1 < n {
            assert(before(descending, a[i], a[i + 1]) == before(descending, b[i], b[i + 1]));
        }
    }
    if has_step(descending, a) {
        let i = pivot(descending, a);
        let k = partner(descending, a, i);
        lemma_pivot_exists(descending, a);
        assert(is_step(descending, b, i));
        assert(is_pivot(descending, b, i));
        assert(is_partner(descending, b, i, k)) by {
            assert(before(descending, a[i], a[k]) == before(descending, b[i], b[k]));
            assert forall|j: int| k < j < n implies !before(descending, b[i], #[trigger] b[j]) by {
                assert(before(descending, a[i], a[j]) == before(descending, b[i], b[j]));
            }
        }
        lemma_advance_unfold(descending, b, i, k);
        lemma_advance_shape(descending, a, i, k);
        lemma_advance_shape(descending, b, i, k);
        let ta = advance(descending, a);
        let tb = advance(descending, b);
        assert forall|j: int| 0 <= j < n implies same(#[trigger] ta[j], tb[j]) by {
            if j > i {
                let m = n + i - j;
                assert(ta[j] == swapped(a, i, k)[m]);
                assert(tb[j] == swapped(b, i, k)[m]);
            }
        }
    } else {
        let m = choose|m: int| is_step(descending, b, m);
        assert(!is_step(descending, a, m));
        assert(!has_step(descending, b));
        assert forall|j: int| 0 <= j < n implies same(#[trigger] a.reverse()[j], b.reverse()[j]) by {
            assert(a.reverse()[j] == a[n - 1 - j]);
            assert(b.reverse()[j] == b[n - 1 - j]);
        }
    }
}

/// Where the part behind the first element has a step, advancing leaves the
/// first element alone and advances that part.
pub proof fn lemma_advance_keeps_head<T: PartialOrd>(descending: bool, x: T, t: Seq<T>)
    requires
        has_step(descending, t),
    ensures
        has_step(descending, seq![x] + t),
        advance(descending, seq![x] + t) == seq![x] + advance(descending, t),
{
    let s = seq![x] + t;
    let n = t.len() as int;
    let i = pivot(descending, t);
    let k = partner(descending, t, i);
    lemma_pivot_exists(descending, t);
    assert(is_step(descending, s, i + 1)) by {
        assert(s[i + 1] == t[i] && s[i + 2] == t[i + 1]);
    }
    assert forall|j: int| i + 1 < j implies !is_step(descending, s, j) by {
        if j + 1 < s.len() {
            assert(s[j] == t[j - 1] && s[j + 1] == t[j]);
            assert(!is_step(descending, t, j - 1));
        }
    }
    assert(is_partner(descending, s, i + 1, k + 1)) by {
        assert(s[i + 1] == t[i] && s[k + 1] == t[k]);
        assert forall|j: int| k + 1 < j < s.len() implies !before(
            descending,
            s[i + 1],
            #[trigger] s[j],
        ) by {
            assert(s[j] == t[j - 1]);
        }
    }
    lemma_advance_unfold(descending, s, i + 1, k + 1);
    lemma_advance_unfold(descending, t, i, k);
    let su = swapped(s, i + 1, k + 1);
    let tu = swapped(t, i, k);
    lemma_reversed_from(su, i + 2);
    lemma_reversed_from(tu, i + 1);
    assert(su =~= seq![x] + tu);
    let whole = reversed_from(su, i + 2);
    let joined = seq![x] + reversed_from(tu, i + 1);
    assert(whole =~= joined) by {
        assert forall|j: int| 0 <= j < n + 1 implies #[trigger] whole[j] == joined[j] by {
            if j >= i + 2 {
                assert(reversed_from(su, i + 2)[j] == su[n + 1 - 1 - (j - (i + 2))]);
                assert(reversed_from(tu, i + 1)[j - 1] == tu[n - 1 - (j - 1 - (i + 1))]);
            }
        }
    }
}

} // verus!
