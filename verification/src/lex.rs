//! The lexicographic order on sequences, in ascending and in descending
//! direction.
use crate::occurrences::agree;
use crate::order::before;
use crate::order::lemma_before_transitive;
use crate::order::lemma_before_trichotomy;
use crate::order::total_order;
use vstd::prelude::*;

verus! {

/// `a` and `b` are equal at each position before `k`, and at `k` the element
/// of `a` comes before that of `b`.
pub open spec fn lex_before_at<T: PartialOrd>(
    descending: bool,
    a: Seq<T>,
    b: Seq<T>,
    k: int,
) -> bool {
    &&& 0 <= k < a.len()
    &&& k < b.len()
    &&& agree(a, b, k)
    &&& before(descending, a[k], b[k])
}

/// `a` is shorter than `b` and equal to it at each of its own positions.
pub open spec fn proper_prefix<T: PartialOrd>(a: Seq<T>, b: Seq<T>) -> bool {
    a.len() < b.len() && agree(a, b, a.len() as int)
}

/// `a` comes strictly before `b` in the lexicographic order of the given
/// direction: at the first position where the two differ the element of `a`
/// comes before that of `b`, or they differ nowhere and the one that ends
/// first comes first in ascending direction, last in descending direction.
pub open spec fn lex_before<T: PartialOrd>(descending: bool, a: Seq<T>, b: Seq<T>) -> bool {
    ||| exists|k: int| lex_before_at(descending, a, b, k)
    ||| if descending {
        proper_prefix(b, a)
    } else {
        proper_prefix(a, b)
    }
}

/// `a` is lexicographically smaller than `b`.
pub open spec fn lex_lt<T: PartialOrd>(a: Seq<T>, b: Seq<T>) -> bool {
    lex_before(false, a, b)
}

/// `a` and `b` have one length and are equal at every position.
pub open spec fn lex_same<T: PartialOrd>(a: Seq<T>, b: Seq<T>) -> bool {
    a.len() == b.len() && agree(a, b, a.len() as int)
}

/// Agreement on the first `k` positions is symmetric.
pub proof fn lemma_agree_symmetric<T: Ord>(a: Seq<T>, b: Seq<T>, k: int)
    requires
        total_order::<T>(),
        agree(a, b, k),
    ensures
        agree(b, a, k),
{
    assert forall|j: int| 0 <= j < k implies crate::order::same(#[trigger] b[j], a[j]) by {
        lemma_before_trichotomy(false, a[j], b[j]);
    }
}

/// Agreement on the first `k` positions is transitive.
pub proof fn lemma_agree_transitive<T: Ord>(a: Seq<T>, b: Seq<T>, c: Seq<T>, k: int)
    requires
        total_order::<T>(),
        agree(a, b, k),
        agree(b, c, k),
    ensures
        agree(a, c, k),
{
    assert forall|j: int| 0 <= j < k implies crate::order::same(#[trigger] a[j], c[j]) by {
        lemma_before_transitive(false, a[j], b[j], c[j]);
    }
}

/// Being lexicographically greater is being smaller with the sides swapped.
pub proof fn lemma_lex_flip<T: Ord>(descending: bool, a: Seq<T>, b: Seq<T>)
    requires
        total_order::<T>(),
    ensures
        lex_before(!descending, a, b) == lex_before(descending, b, a),
{
    let opposite = !descending;
    if lex_before(opposite, a, b) {
        if exists|k: int| lex_before_at(opposite, a, b, k) {
            let k = choose|k: int| lex_before_at(opposite, a, b, k);
            lemma_agree_symmetric(a, b, k);
            lemma_before_trichotomy(descending, a[k], b[k]);
            assert(lex_before_at(descending, b, a, k));
        }
    }
    if lex_before(descending, b, a) {
        if exists|k: int| lex_before_at(descending, b, a, k) {
            let k = choose|k: int| lex_before_at(descending, b, a, k);
            lemma_agree_symmetric(b, a, k);
            lemma_before_trichotomy(descending, a[k], b[k]);
            assert(lex_before_at(opposite, a, b, k));
        }
    }
}

/// No sequence comes before itself, and of two sequences at most one comes
/// before the other.
pub proof fn lemma_lex_asymmetric<T: Ord>(descending: bool, a: Seq<T>, b: Seq<T>)
    requires
        total_order::<T>(),
    ensures
        !lex_before(descending, a, a),
        !(lex_before(descending, a, b) && lex_before(descending, b, a)),
        !(lex_before(descending, a, b) && lex_same(a, b)),
{
    if exists|k: int| lex_before_at(descending, a, a, k) {
        let k = choose|k: int| lex_before_at(descending, a, a, k);
        lemma_before_trichotomy(descending, a[k], a[k]);
    }
    if lex_before(descending, a, b) && lex_same(a, b) {
        let k = choose|k: int| lex_before_at(descending, a, b, k);
        lemma_before_trichotomy(descending, a[k], b[k]);
    }
    if lex_before(descending, a, b) && lex_before(descending, b, a) {
        if exists|k: int| lex_before_at(descending, a, b, k) {
            let k = choose|k: int| lex_before_at(descending, a, b, k);
            lemma_before_trichotomy(descending, a[k], b[k]);
            if exists|m: int| lex_before_at(descending, b, a, m) {
                let m = choose|m: int| lex_before_at(descending, b, a, m);
                lemma_before_trichotomy(descending, b[m], a[m]);
                lemma_before_trichotomy(descending, a[m], b[m]);
                lemma_before_trichotomy(descending, b[k], a[k]);
            } else {
                lemma_before_trichotomy(descending, b[k], a[k]);
            }
        } else {
            let m = choose|m: int| lex_before_at(descending, b, a, m);
            lemma_before_trichotomy(descending, b[m], a[m]);
            lemma_before_trichotomy(descending, a[m], b[m]);
        }
    }
}

/// The lexicographic order is transitive.
pub proof fn lemma_lex_transitive<T: Ord>(descending: bool, a: Seq<T>, b: Seq<T>, c: Seq<T>)
    requires
        total_order::<T>(),
        lex_before(descending, a, b),
        lex_before(descending, b, c),
    ensures
        lex_before(descending, a, c),
{
    if exists|k: int| lex_before_at(descending, a, b, k) {
        let k = choose|k: int| lex_before_at(descending, a, b, k);
        if exists|m: int| lex_before_at(descending, b, c, m) {
            let m = choose|m: int| lex_before_at(descending, b, c, m);
            if k <= m {
                lemma_agree_transitive(a, b, c, k);
                if k < m {
                    lemma_before_transitive(descending, a[k], b[k], c[k]);
                } else {
                    lemma_before_transitive(descending, a[k], b[k], c[k]);
                }
                assert(lex_before_at(descending, a, c, k));
            } else {
                lemma_agree_transitive(a, b, c, m);
                lemma_before_transitive(descending, a[m], b[m], c[m]);
                assert(lex_before_at(descending, a, c, m));
            }
        } else {
            // `b` against `c` is decided by length alone.
            if descending {
                // `c` is a proper prefix of `b`.
                if k < c.len() {
                    lemma_agree_symmetric(c, b, c.len() as int);
                    lemma_agree_transitive(a, b, c, k);
                    lemma_before_transitive(descending, a[k], b[k], c[k]);
                    assert(lex_before_at(descending, a, c, k));
                } else {
                    lemma_agree_symmetric(c, b, c.len() as int);
                    lemma_agree_transitive(a, b, c, c.len() as int);
                    lemma_agree_symmetric(a, c, c.len() as int);
                    assert(proper_prefix(c, a));
                }
            } else {
                lemma_agree_transitive(a, b, c, k);
                lemma_before_transitive(descending, a[k], b[k], c[k]);
                assert(lex_before_at(descending, a, c, k));
            }
        }
    } else {
        if exists|m: int| lex_before_at(descending, b, c, m) {
            let m = choose|m: int| lex_before_at(descending, b, c, m);
            if descending {
                // `b` is a proper prefix of `a`.
                lemma_agree_symmetric(b, a, b.len() as int);
                lemma_agree_transitive(a, b, c, m);
                lemma_before_transitive(descending, a[m], b[m], c[m]);
                assert(lex_before_at(descending, a, c, m));
            } else {
                // `a` is a proper prefix of `b`.
                if m < a.len() {
                    lemma_agree_transitive(a, b, c, m);
                    lemma_before_transitive(descending, a[m], b[m], c[m]);
                    assert(lex_before_at(descending, a, c, m));
                } else {
                    lemma_agree_transitive(a, b, c, a.len() as int);
                    assert(proper_prefix(a, c));
                }
            }
        } else {
            if descending {
                lemma_agree_transitive(c, b, a, c.len() as int);
                assert(proper_prefix(c, a));
            } else {
                lemma_agree_transitive(a, b, c, a.len() as int);
                assert(proper_prefix(a, c));
            }
        }
    }
}

/// The first `k` positions of `a` and `b` are equal, or one of the two comes
/// before the other by a position before `k`.
proof fn lemma_lex_decided_up_to<T: Ord>(descending: bool, a: Seq<T>, b: Seq<T>, k: int)
    requires
        total_order::<T>(),
        0 <= k <= a.len(),
        k <= b.len(),
    ensures
        agree(a, b, k) || (exists|m: int| lex_before_at(descending, a, b, m)) || (exists|m: int|
            lex_before_at(descending, b, a, m)),
    decreases k,
{
    if k > 0 {
        lemma_lex_decided_up_to(descending, a, b, k - 1);
        if agree(a, b, k - 1) {
            lemma_before_trichotomy(descending, a[k - 1], b[k - 1]);
            if before(descending, a[k - 1], b[k - 1]) {
                assert(lex_before_at(descending, a, b, k - 1));
            } else if before(descending, b[k - 1], a[k - 1]) {
                lemma_agree_symmetric(a, b, k - 1);
                assert(lex_before_at(descending, b, a, k - 1));
            } else {
                assert(agree(a, b, k));
            }
        }
    }
}

/// Of two sequences one comes before the other, or they are equal at every
/// position.
pub proof fn lemma_lex_total<T: Ord>(descending: bool, a: Seq<T>, b: Seq<T>)
    requires
        total_order::<T>(),
    ensures
        lex_before(descending, a, b) || lex_before(descending, b, a) || lex_same(a, b),
{
    let k = if a.len() <= b.len() {
        a.len() as int
    } else {
        b.len() as int
    };
    lemma_lex_decided_up_to(descending, a, b, k);
    if agree(a, b, k) {
        lemma_agree_symmetric(a, b, k);
    }
}

} // verus!
