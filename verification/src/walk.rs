//! Advancing again and again: the walk through all the rearrangements of a
//! sequence.
//!
//! Started at the first rearrangement, the walk comes to every rearrangement,
//! each later one after each earlier one in lexicographic order, before it
//! meets the last one and wraps round to the first. Rearrangements that are
//! equal position by position count as one.
//!
//! In ascending direction an advance is what `Permutations::next` makes of
//! the slice, and it meets a step where `next` returns `true`; in descending
//! direction the same holds of `Permutations::previous`.
use crate::lex::lemma_lex_asymmetric;
use crate::lex::lemma_lex_flip;
use crate::lex::lemma_lex_total;
use crate::lex::lemma_lex_transitive;
use crate::lex::lex_before;
use crate::lex::lex_before_at;
use crate::lex::lex_same;
use crate::occurrences::lemma_permutation_length;
use crate::occurrences::permutation_of;
use crate::order::before;
use crate::order::lemma_before_transitive;
use crate::order::lemma_before_trichotomy;
use crate::order::same;
use crate::order::total_order;
use crate::permutation::advance;
use crate::permutation::has_step;
use crate::permutation::is_last;
use crate::permutation::lemma_advance_inverse;
use crate::permutation::lemma_advance_is_successor;
use crate::permutation::lemma_advance_keeps_head;
use crate::permutation::lemma_advance_respects_equality;
use crate::permutation::lemma_last_iff_no_step;
use crate::permutation::lemma_no_step_is_last;
use vstd::prelude::*;

verus! {

/// The sequence that `steps` advances make of `s`.
pub open spec fn advance_by<T: PartialOrd>(descending: bool, s: Seq<T>, steps: nat) -> Seq<T>
    decreases steps,
{
    if steps == 0 {
        s
    } else {
        advance(descending, advance_by(descending, s, (steps - 1) as nat))
    }
}

/// Each of the first `steps` advances from `s` meets a step: none of them
/// wraps round.
pub open spec fn unwrapped<T: PartialOrd>(descending: bool, s: Seq<T>, steps: nat) -> bool {
    forall|m: nat| m < steps ==> has_step(descending, #[trigger] advance_by(descending, s, m))
}

/// The number of positions of `base` whose element comes before `x`.
pub open spec fn rank<T: PartialOrd>(descending: bool, base: Seq<T>, x: T) -> nat
    decreases base.len(),
{
    if base.len() == 0 {
        0
    } else {
        rank(descending, base.drop_last(), x) + if before(descending, base.last(), x) {
            1nat
        } else {
            0nat
        }
    }
}

/// The number whose digits are the ranks of the elements of `p`, the first
/// element's rank being the leading digit.
pub open spec fn weight<T: PartialOrd>(descending: bool, base: Seq<T>, p: Seq<T>) -> nat
    decreases p.len(),
{
    if p.len() == 0 {
        0
    } else {
        weight(descending, base, p.drop_last()) * (base.len() + 1) + rank(
            descending,
            base,
            p.last(),
        )
    }
}

/// A rank is at most the length of the base, elements that are equal have the
/// same rank, and an element that comes before another has no greater rank.
proof fn lemma_rank<T: Ord>(descending: bool, base: Seq<T>, x: T, y: T)
    requires
        total_order::<T>(),
    ensures
        rank(descending, base, x) <= base.len(),
        same(x, y) ==> rank(descending, base, x) == rank(descending, base, y),
        before(descending, x, y) ==> rank(descending, base, x) <= rank(descending, base, y),
    decreases base.len(),
{
    if base.len() > 0 {
        let z = base.last();
        lemma_rank(descending, base.drop_last(), x, y);
        lemma_before_trichotomy(descending, x, y);
        lemma_before_transitive(descending, z, x, y);
        lemma_before_transitive(descending, z, y, x);
    }
}

/// An element of the base that comes before another element has a smaller
/// rank than that one.
proof fn lemma_rank_grows<T: Ord>(descending: bool, base: Seq<T>, x: T, y: T, j: int)
    requires
        total_order::<T>(),
        0 <= j < base.len(),
        same(base[j], x),
        before(descending, x, y),
    ensures
        rank(descending, base, x) < rank(descending, base, y),
    decreases base.len(),
{
    let z = base.last();
    lemma_rank(descending, base.drop_last(), x, y);
    lemma_before_trichotomy(descending, z, x);
    lemma_before_transitive(descending, z, x, y);
    if j < base.len() - 1 {
        lemma_rank_grows(descending, base.drop_last(), x, y, j);
    }
}

/// Sequences that are equal position by position have the same weight.
proof fn lemma_weight_of_equals<T: Ord>(descending: bool, base: Seq<T>, a: Seq<T>, b: Seq<T>)
    requires
        total_order::<T>(),
        lex_same(a, b),
    ensures
        weight(descending, base, a) == weight(descending, base, b),
    decreases a.len(),
{
    if a.len() > 0 {
        lemma_weight_of_equals(descending, base, a.drop_last(), b.drop_last());
        lemma_rank(descending, base, a.last(), b.last());
    }
}

/// Of two sequences of one length, the one that comes first has the smaller
/// weight, where its element at the deciding position occurs in the base.
proof fn lemma_weight_grows<T: Ord>(
    descending: bool,
    base: Seq<T>,
    a: Seq<T>,
    b: Seq<T>,
    k: int,
    j: int,
)
    requires
        total_order::<T>(),
        a.len() == b.len(),
        lex_before_at(descending, a, b, k),
        0 <= j < base.len(),
        same(base[j], a[k]),
    ensures
        weight(descending, base, a) < weight(descending, base, b),
    decreases a.len(),
{
    let digits = base.len() + 1;
    let wa = weight(descending, base, a.drop_last());
    let wb = weight(descending, base, b.drop_last());
    lemma_rank(descending, base, a.last(), b.last());
    lemma_rank(descending, base, b.last(), a.last());
    if k == a.len() - 1 {
        lemma_weight_of_equals(descending, base, a.drop_last(), b.drop_last());
        lemma_rank_grows(descending, base, a[k], b[k], j);
    } else {
        assert(lex_before_at(descending, a.drop_last(), b.drop_last(), k));
        lemma_weight_grows(descending, base, a.drop_last(), b.drop_last(), k, j);
        assert((wa + 1) * digits <= wb * digits) by (nonlinear_arith)
            requires
                wa + 1 <= wb,
                digits >= 0,
        ;
        assert((wa + 1) * digits == wa * digits + digits) by (nonlinear_arith);
    }
}

/// Every element of a rearrangement of `base` occurs in `base`.
proof fn lemma_element_of_base<T: Ord>(base: Seq<T>, p: Seq<T>, k: int) -> (j: int)
    requires
        total_order::<T>(),
        permutation_of(p, base),
        0 <= k < p.len(),
    ensures
        0 <= j < base.len(),
        same(base[j], p[k]),
{
    vstd::seq_lib::to_multiset_contains(p, p[k]);
    vstd::seq_lib::to_multiset_contains(base, p[k]);
    assert(p.contains(p[k]));
    let j = choose|j: int| 0 <= j < base.len() && base[j] == p[k];
    lemma_before_trichotomy(false, p[k], p[k]);
    j
}

/// However far the walk has gone, it stands at a rearrangement of the
/// sequence that it started from.
pub proof fn lemma_walk_permutes<T: Ord>(descending: bool, s: Seq<T>, steps: nat)
    requires
        total_order::<T>(),
    ensures
        permutation_of(advance_by(descending, s, steps), s),
    decreases steps,
{
    if steps > 0 {
        let a = advance_by(descending, s, (steps - 1) as nat);
        lemma_walk_permutes(descending, s, (steps - 1) as nat);
        if has_step(descending, a) {
            lemma_advance_is_successor(descending, a);
        } else {
            lemma_no_step_is_last(descending, a);
        }
    }
}

/// As long as the walk does not wrap round, it moves on in lexicographic
/// order: where it stands after more steps comes after where it stood after
/// fewer. So it comes to no rearrangement twice.
pub proof fn lemma_walk_increases<T: Ord>(descending: bool, s: Seq<T>, fewer: nat, more: nat)
    requires
        total_order::<T>(),
        fewer < more,
        unwrapped(descending, s, more),
    ensures
        lex_before(
            descending,
            advance_by(descending, s, fewer),
            advance_by(descending, s, more),
        ),
        !lex_same(advance_by(descending, s, fewer), advance_by(descending, s, more)),
    decreases more,
{
    let a = advance_by(descending, s, (more - 1) as nat);
    let b = advance_by(descending, s, more);
    assert(has_step(descending, a));
    lemma_advance_is_successor(descending, a);
    if fewer < more - 1 {
        lemma_walk_increases(descending, s, fewer, (more - 1) as nat);
        lemma_lex_transitive(descending, advance_by(descending, s, fewer), a, b);
    }
    lemma_lex_asymmetric(descending, advance_by(descending, s, fewer), b);
}

/// Started at the first rearrangement, the walk comes to every rearrangement
/// `p` before it wraps round: after the number of steps that this lemma
/// returns it stands at a sequence equal to `p` position by position.
pub proof fn lemma_walk_reaches<T: Ord>(descending: bool, s: Seq<T>, p: Seq<T>) -> (steps: nat)
    requires
        total_order::<T>(),
        is_last(!descending, s),
        permutation_of(p, s),
    ensures
        unwrapped(descending, s, steps),
        lex_same(advance_by(descending, s, steps), p),
    decreases weight(descending, s, p),
{
    let opposite = !descending;
    lemma_permutation_length(p, s);
    if has_step(opposite, p) {
        // One step back from `p` lies a rearrangement of smaller weight.
        let q = advance(opposite, p);
        lemma_advance_is_successor(opposite, p);
        lemma_advance_inverse(opposite, p);
        lemma_lex_flip(descending, p, q);
        lemma_permutation_length(q, p);
        let k = choose|k: int| lex_before_at(descending, q, p, k);
        let j = lemma_element_of_base(s, q, k);
        lemma_weight_grows(descending, s, q, p, k, j);
        let back = lemma_walk_reaches(descending, s, q);
        let a = advance_by(descending, s, back);
        lemma_advance_respects_equality(descending, a, q);
        assert(advance(descending, q) == p);
        assert(advance_by(descending, s, back + 1) == advance(descending, a));
        assert forall|m: nat| m < back + 1 implies has_step(
            descending,
            #[trigger] advance_by(descending, s, m),
        ) by {
            if m == back {
                assert(has_step(descending, q));
            }
        }
        back + 1
    } else {
        // Both `s` and `p` are the first rearrangement.
        lemma_no_step_is_last(opposite, p);
        lemma_lex_total(opposite, s, p);
        assert(permutation_of(s, p));
        0
    }
}

/// Started at the first rearrangement, the walk meets the last one after the
/// number of steps that this lemma returns, without wrapping round before,
/// and the next advance brings it back to the first.
pub proof fn lemma_walk_ends<T: Ord>(descending: bool, s: Seq<T>) -> (steps: nat)
    requires
        total_order::<T>(),
        is_last(!descending, s),
    ensures
        unwrapped(descending, s, steps),
        is_last(descending, advance_by(descending, s, steps)),
        lex_same(advance_by(descending, s, steps + 1), s),
        is_last(!descending, advance_by(descending, s, steps + 1)),
{
    let opposite = !descending;
    let p = s.reverse();
    lemma_last_iff_no_step(opposite, s);
    lemma_no_step_is_last(opposite, s);
    lemma_advance_inverse(opposite, s);
    assert(advance(opposite, s) == p);
    assert(!has_step(descending, p));
    assert(advance(descending, p) == s);
    let steps = lemma_walk_reaches(descending, s, p);
    let a = advance_by(descending, s, steps);
    lemma_advance_respects_equality(descending, a, p);
    lemma_last_iff_no_step(descending, a);
    lemma_no_step_is_last(descending, a);
    assert(advance_by(descending, s, steps + 1) == advance(descending, a));
    steps
}

/// Advancing `first` times and then `then` times is advancing as often as
/// both together.
pub proof fn lemma_advance_by_sum<T: PartialOrd>(
    descending: bool,
    s: Seq<T>,
    first: nat,
    then: nat,
)
    ensures
        advance_by(descending, s, first + then) == advance_by(
            descending,
            advance_by(descending, s, first),
            then,
        ),
    decreases then,
{
    if then > 0 {
        lemma_advance_by_sum(descending, s, first, (then - 1) as nat);
        assert(first + then - 1 == first + (then - 1));
    }
}

/// As long as the walk of the part behind the first element does not wrap
/// round, the walk of the whole leaves the first element alone and walks that
/// part.
pub proof fn lemma_walk_keeps_head<T: PartialOrd>(descending: bool, x: T, t: Seq<T>, steps: nat)
    requires
        unwrapped(descending, t, steps),
    ensures
        unwrapped(descending, seq![x] + t, steps),
        advance_by(descending, seq![x] + t, steps) == seq![x] + advance_by(descending, t, steps),
    decreases steps,
{
    if steps > 0 {
        let fewer = (steps - 1) as nat;
        lemma_walk_keeps_head(descending, x, t, fewer);
        let u = advance_by(descending, t, fewer);
        assert(has_step(descending, u));
        lemma_advance_keeps_head(descending, x, u);
        assert forall|m: nat| m < steps implies has_step(
            descending,
            #[trigger] advance_by(descending, seq![x] + t, m),
        ) by {
            if m == fewer {
            }
        }
    }
}

} // verus!
