//! In-place algorithms on a mutable slice: stepping through its permutations
//! in lexicographic order, and partitioning it around a pivot.
use crate::occurrences::count;
use crate::occurrences::equal_to;
use crate::occurrences::lemma_count_concat;
use crate::occurrences::lemma_count_uniform;
use crate::occurrences::occurrences;
use crate::occurrences::permutation_of;
use crate::occurrences::smaller_than;
use crate::order::above;
use crate::order::coherent;
use crate::order::gt;
use crate::order::lemma_coherent;
use crate::order::lemma_total_order_is_coherent;
use crate::order::lemma_trichotomy;
use crate::order::lt;
use crate::order::same;
use crate::order::total_order;
use crate::permutation::has_ascent;
use crate::permutation::has_descent;
use crate::permutation::has_step;
use crate::permutation::is_ascending;
use crate::permutation::is_descending;
use crate::permutation::is_first_permutation;
use crate::permutation::is_last_permutation;
use crate::permutation::is_partner;
use crate::permutation::is_pivot;
use crate::permutation::is_predecessor;
use crate::permutation::is_step;
use crate::permutation::is_successor;
use crate::permutation::lemma_advance_is_successor;
use crate::permutation::lemma_advance_unfold;
use crate::permutation::lemma_last_iff_no_step;
use crate::permutation::lemma_no_step_is_last;
use crate::permutation::lemma_reversed_from;
use crate::permutation::lemma_swapped_permutes;
use crate::permutation::next_permutation;
use crate::permutation::previous_permutation;
use crate::permutation::reversed_from;
use crate::permutation::swapped;
use vstd::prelude::*;

verus! {

/// Exchanges the elements at `a` and `b`.
pub fn swap<T>(slice: &mut [T], a: usize, b: usize)
    requires
        a < old(slice)@.len(),
        b < old(slice)@.len(),
    ensures
        final(slice)@ == swapped(old(slice)@, a as int, b as int),
{
    if a < b {
        let (head, tail) = slice.split_at_mut(b);
        core::mem::swap(&mut head[a], &mut tail[0]);
        assert(slice@ =~= swapped(old(slice)@, a as int, b as int));
    } else if b < a {
        let (head, tail) = slice.split_at_mut(a);
        core::mem::swap(&mut head[b], &mut tail[0]);
        assert(slice@ =~= swapped(old(slice)@, a as int, b as int));
    } else {
        assert(slice@ =~= swapped(old(slice)@, a as int, b as int));
    }
}

/// Reverses the part of the slice that starts at `from`.
pub fn reverse_from<T>(slice: &mut [T], from: usize)
    requires
        from <= old(slice)@.len(),
    ensures
        final(slice)@ == reversed_from(old(slice)@, from as int),
{
    let n = slice.len();
    let ghost start = slice@;
    proof {
        lemma_reversed_from(start, from as int);
    }
    if n - from < 2 {
        assert(slice@ =~= reversed_from(start, from as int));
        return ;
    }
    let mut lo: usize = from;
    let mut hi: usize = n - 1;
    while lo < hi
        invariant
            from <= lo,
            hi < n,
            lo + hi == from + n - 1,
            n == start.len(),
            slice@.len() == n,
            reversed_from(start, from as int).len() == n,
            forall|j: int| 0 <= j < from ==> #[trigger] reversed_from(start, from as int)[j] == start[j],
            forall|j: int|
                from <= j < n ==> #[trigger] reversed_from(start, from as int)[j] == start[n - 1 - (j
                    - from)],
            forall|j: int|
                0 <= j < lo || hi < j < n ==> #[trigger] slice@[j] == reversed_from(
                    start,
                    from as int,
                )[j],
            forall|j: int| lo <= j <= hi ==> #[trigger] slice@[j] == start[j],
        decreases hi,
    {
        swap(slice, lo, hi);
        lo += 1;
        hi -= 1;
    }
    assert(slice@ =~= reversed_from(start, from as int));
}

/// `s` is laid out in three parts around `pivot`: before `equal_start` the
/// elements smaller than `pivot`, from there to `greater_start` those equal to
/// it, and from `greater_start` on those that are neither, which for elements
/// that can be compared with `pivot` are the greater ones.
pub open spec fn partitioned<T: PartialOrd>(
    s: Seq<T>,
    pivot: T,
    equal_start: int,
    greater_start: int,
) -> bool {
    &&& 0 <= equal_start <= greater_start <= s.len()
    &&& forall|j: int| 0 <= j < equal_start ==> lt(#[trigger] s[j], pivot)
    &&& forall|j: int| equal_start <= j < greater_start ==> same(#[trigger] s[j], pivot)
    &&& forall|j: int| greater_start <= j < s.len() ==> above(#[trigger] s[j], pivot)
}

/// Every element of `s` is smaller than `pivot`.
pub open spec fn all_less<T: PartialOrd>(s: Seq<T>, pivot: T) -> bool {
    forall|j: int| 0 <= j < s.len() ==> lt(#[trigger] s[j], pivot)
}

/// Every element of `s` is equal to `pivot`.
pub open spec fn all_equal<T: PartialOrd>(s: Seq<T>, pivot: T) -> bool {
    forall|j: int| 0 <= j < s.len() ==> same(#[trigger] s[j], pivot)
}

/// Every element of `s` is neither smaller than `pivot` nor equal to it.
pub open spec fn all_above<T: PartialOrd>(s: Seq<T>, pivot: T) -> bool {
    forall|j: int| 0 <= j < s.len() ==> above(#[trigger] s[j], pivot)
}

/// Where a rearrangement `t` of `s` is laid out in three parts around `pivot`,
/// `s` alone says where the parts start: the second after as many elements as
/// `s` has smaller than `pivot`, the third as many further on as `s` has
/// elements equal to it.
pub proof fn lemma_partition_bounds<T: PartialOrd>(
    s: Seq<T>,
    t: Seq<T>,
    pivot: T,
    equal_start: int,
    greater_start: int,
)
    requires
        coherent::<T>(),
        permutation_of(t, s),
        partitioned(t, pivot, equal_start, greater_start),
    ensures
        equal_start == count(s, smaller_than(pivot)),
        greater_start - equal_start == occurrences(s, pivot),
{
    lemma_coherent::<T>();
    let smaller = t.subrange(0, equal_start);
    let equal = t.subrange(equal_start, greater_start);
    let others = t.subrange(greater_start, t.len() as int);
    assert(t =~= smaller + equal + others);
    let less = smaller_than(pivot);
    lemma_count_concat(smaller + equal, others, less);
    lemma_count_concat(smaller, equal, less);
    lemma_count_uniform(smaller, less);
    lemma_count_uniform(equal, less);
    lemma_count_uniform(others, less);
    let like = equal_to(pivot);
    lemma_count_concat(smaller + equal, others, like);
    lemma_count_concat(smaller, equal, like);
    lemma_count_uniform(smaller, like);
    lemma_count_uniform(equal, like);
    lemma_count_uniform(others, like);
}

/// Rearranges the slice into three parts: the elements smaller than `pivot`,
/// those equal to it, and the others. Returns where the second part starts and
/// where the third one does.
///
/// The slice keeps its elements whatever the comparisons of `T` do; the
/// layout is promised for a type whose comparisons are coherent.
pub fn partition<T>(slice: &mut [T], pivot: T) -> (bounds: (usize, usize)) where
    T: PartialOrd,

    ensures
        permutation_of(final(slice)@, old(slice)@),
        bounds.0 <= bounds.1 <= old(slice)@.len(),
        coherent::<T>() ==> partitioned(final(slice)@, pivot, bounds.0 as int, bounds.1 as int),
        coherent::<T>() ==> bounds.0 == count(old(slice)@, smaller_than(pivot)),
        coherent::<T>() ==> bounds.1 - bounds.0 == occurrences(old(slice)@, pivot),
{
    let n = slice.len();
    let ghost start = slice@;
    let mut read: usize = 0;
    let mut eq_end: usize = 0;
    let mut lt_end: usize = 0;
    // First the equal elements, then the smaller ones, then the others.
    while read < n
        invariant
            eq_end <= lt_end <= read <= n,
            n == slice@.len(),
            permutation_of(slice@, start),
            coherent::<T>() ==> {
                &&& forall|j: int| 0 <= j < eq_end ==> same(#[trigger] slice@[j], pivot)
                &&& forall|j: int| eq_end <= j < lt_end ==> lt(#[trigger] slice@[j], pivot)
                &&& forall|j: int| lt_end <= j < read ==> above(#[trigger] slice@[j], pivot)
            },
        decreases n - read,
    {
        proof {
            if coherent::<T>() {
                lemma_coherent::<T>();
            }
        }
        let ghost seen = slice@;
        if slice[read] < pivot {
            swap(slice, read, lt_end);
            proof {
                lemma_swapped_permutes(seen, read as int, lt_end as int);
            }
            lt_end += 1;
        } else if slice[read] == pivot {
            swap(slice, read, eq_end);
            let ghost moved = slice@;
            proof {
                lemma_swapped_permutes(seen, read as int, eq_end as int);
            }
            if lt_end > eq_end {
                swap(slice, read, lt_end);
                proof {
                    lemma_swapped_permutes(moved, read as int, lt_end as int);
                }
            }
            eq_end += 1;
            lt_end += 1;
        }
        read += 1;
    }
    let equal_start = lt_end - eq_end;
    let greater_start = lt_end;
    // The equal elements change places with the last of the smaller ones.
    while eq_end > 0
        invariant
            eq_end <= lt_end <= greater_start <= n,
            lt_end - eq_end == equal_start,
            n == slice@.len(),
            n == start.len(),
            permutation_of(slice@, start),
            coherent::<T>() ==> {
                &&& forall|j: int| 0 <= j < eq_end ==> same(#[trigger] slice@[j], pivot)
                &&& forall|j: int| eq_end <= j < lt_end ==> lt(#[trigger] slice@[j], pivot)
                &&& forall|j: int| lt_end <= j < greater_start ==> same(#[trigger] slice@[j], pivot)
                &&& forall|j: int| greater_start <= j < n ==> above(#[trigger] slice@[j], pivot)
            },
        decreases eq_end,
    {
        let ghost seen = slice@;
        eq_end -= 1;
        lt_end -= 1;
        swap(slice, eq_end, lt_end);
        proof {
            lemma_swapped_permutes(seen, eq_end as int, lt_end as int);
        }
    }
    proof {
        if coherent::<T>() {
            lemma_partition_bounds(start, slice@, pivot, equal_start as int, greater_start as int);
        }
    }
    (equal_start, greater_start)
}

/// Rearranges the slice as `partition` does and hands out its three parts:
/// the elements smaller than `pivot`, those equal to it, and the others.
pub fn split_at_partitions<T>(slice: &mut [T], pivot: T) -> (parts: (
    &mut [T],
    &mut [T],
    &mut [T],
)) where T: PartialOrd
    ensures
        permutation_of(parts.0@ + parts.1@ + parts.2@, old(slice)@),
        final(slice)@ == final(parts.0)@ + final(parts.1)@ + final(parts.2)@,
        coherent::<T>() ==> all_less(parts.0@, pivot),
        coherent::<T>() ==> all_equal(parts.1@, pivot),
        coherent::<T>() ==> all_above(parts.2@, pivot),
        coherent::<T>() ==> parts.0@.len() == count(old(slice)@, smaller_than(pivot)),
        coherent::<T>() ==> parts.1@.len() == occurrences(old(slice)@, pivot),
{
    let ghost given = slice@;
    let (start_eq, start_gt) = partition(slice, pivot);
    let ghost laid = slice@;
    proof {
        crate::occurrences::lemma_permutation_length(laid, given);
    }
    let (less_than, rest) = slice.split_at_mut(start_eq);
    let (equal, greater_than) = rest.split_at_mut(start_gt - start_eq);
    proof {
        assert(less_than@ + equal@ + greater_than@ =~= laid);
    }
    (less_than, equal, greater_than)
}

/// A cursor over the permutations of a slice. It holds the slice for as long
/// as it lives, and the present permutation is the present order of the slice.
pub struct Permutations<'a, T: Ord> {
    /// The slice that the cursor rearranges.
    pub elements: &'a mut [T],
}

impl<'a, T: Ord> View for Permutations<'a, T> {
    type V = Seq<T>;

    /// The present order of the elements.
    open spec fn view(&self) -> Seq<T> {
        self.elements@
    }
}

impl<'a, T: Ord> Permutations<'a, T> {
    /// A cursor that stands at the present order of `elements`.
    pub fn new(elements: &'a mut [T]) -> (cursor: Self)
        ensures
            cursor@ == old(elements)@,
            final(elements)@ == final(cursor.elements)@,
    {
        Self { elements }
    }

    /// The elements in their present order.
    pub fn get(&self) -> (elements: &[T])
        ensures
            elements@ == self@,
    {
        self.elements
    }

    /// The elements in their present order, open to change. What the caller
    /// leaves there is where the cursor stands afterwards.
    pub fn get_mut(&mut self) -> (elements: &mut [T])
        ensures
            elements@ == old(self)@,
            final(self)@ == final(elements)@,
            final(final(self).elements)@ == final(old(self).elements)@,
    {
        self.elements
    }

    /// Rearranges the elements into the permutation that follows the present
    /// one in lexicographic order, and returns `true`. Where the present one
    /// is the last, rearranges them into the first and returns `false`.
    pub fn next(&mut self) -> (more: bool)
        requires
            total_order::<T>(),
        ensures
            final(self)@ == next_permutation(old(self)@),
            more == has_ascent(old(self)@),
            more == !is_descending(old(self)@),
            more == !is_last_permutation(old(self)@),
            more ==> is_successor(old(self)@, final(self)@),
            !more ==> final(self)@ == old(self)@.reverse() && is_ascending(final(self)@)
                && is_first_permutation(final(self)@),
            permutation_of(final(self)@, old(self)@),
            final(final(self).elements)@ == final(old(self).elements)@,
    {
        let n = self.elements.len();
        let ghost start = self.elements@;
        proof {
            lemma_total_order_is_coherent::<T>();
            lemma_coherent::<T>();
            lemma_last_iff_no_step(false, start);
        }
        if n < 2 {
            proof {
                assert(!has_step(false, start));
                lemma_no_step_is_last(false, start);
                assert(start.reverse() =~= start);
            }
            return false;
        }
        let mut i: usize = n - 1;
        loop
            invariant
                0 < i < n,
                n == start.len(),
                start == old(self)@,
                self.elements@ == start,
                final(self.elements)@ == final(old(self).elements)@,
                forall|j: int| i <= j ==> !is_step(false, start, j),
                total_order::<T>(),
                coherent::<T>(),
            decreases i,
        {
            i -= 1;
            proof {
                lemma_coherent::<T>();
            }
            if self.elements[i] < self.elements[i + 1] {
                let mut k: usize = n - 1;
                while self.elements[i] >= self.elements[k]
                    invariant
                        i < k < n,
                        n == start.len(),
                        start == old(self)@,
                        self.elements@ == start,
                        final(self.elements)@ == final(old(self).elements)@,
                        lt(start[i as int], start[i + 1]),
                        forall|j: int| k < j < n ==> !lt(start[i as int], #[trigger] start[j]),
                        total_order::<T>(),
                        coherent::<T>(),
                    decreases k,
                {
                    proof {
                        lemma_coherent::<T>();
                        lemma_trichotomy(start[i as int], start[k as int]);
                    }
                    k -= 1;
                }
                proof {
                    lemma_trichotomy(start[i as int], start[k as int]);
                    assert(is_pivot(false, start, i as int));
                    assert(is_partner(false, start, i as int, k as int));
                    lemma_advance_unfold(false, start, i as int, k as int);
                    lemma_advance_is_successor(false, start);
                    lemma_last_iff_no_step(false, start);
                }
                swap(self.elements, i, k);
                reverse_from(self.elements, i + 1);
                return true;
            }
            if i == 0 {
                proof {
                    assert(!has_step(false, start));
                    lemma_no_step_is_last(false, start);
                    assert(reversed_from(start, 0) =~= start.reverse());
                }
                reverse_from(self.elements, 0);
                return false;
            }
        }
    }

    /// Rearranges the elements into the permutation that precedes the present
    /// one in lexicographic order, and returns `true`. Where the present one
    /// is the first, rearranges them into the last and returns `false`.
    pub fn previous(&mut self) -> (more: bool)
        requires
            total_order::<T>(),
        ensures
            final(self)@ == previous_permutation(old(self)@),
            more == has_descent(old(self)@),
            more == !is_ascending(old(self)@),
            more == !is_first_permutation(old(self)@),
            more ==> is_predecessor(old(self)@, final(self)@),
            !more ==> final(self)@ == old(self)@.reverse() && is_descending(final(self)@)
                && is_last_permutation(final(self)@),
            permutation_of(final(self)@, old(self)@),
            final(final(self).elements)@ == final(old(self).elements)@,
    {
        let n = self.elements.len();
        let ghost start = self.elements@;
        proof {
            lemma_total_order_is_coherent::<T>();
            lemma_coherent::<T>();
            lemma_last_iff_no_step(true, start);
        }
        if n < 2 {
            proof {
                assert(!has_step(true, start));
                lemma_no_step_is_last(true, start);
                assert(start.reverse() =~= start);
            }
            return false;
        }
        let mut i: usize = n - 1;
        loop
            invariant
                0 < i < n,
                n == start.len(),
                start == old(self)@,
                self.elements@ == start,
                final(self.elements)@ == final(old(self).elements)@,
                forall|j: int| i <= j ==> !is_step(true, start, j),
                total_order::<T>(),
                coherent::<T>(),
            decreases i,
        {
            i -= 1;
            proof {
                lemma_coherent::<T>();
            }
            if self.elements[i] > self.elements[i + 1] {
                let mut k: usize = n - 1;
                while self.elements[i] <= self.elements[k]
                    invariant
                        i < k < n,
                        n == start.len(),
                        start == old(self)@,
                        self.elements@ == start,
                        final(self.elements)@ == final(old(self).elements)@,
                        gt(start[i as int], start[i + 1]),
                        forall|j: int| k < j < n ==> !gt(start[i as int], #[trigger] start[j]),
                        total_order::<T>(),
                        coherent::<T>(),
                    decreases k,
                {
                    proof {
                        lemma_coherent::<T>();
                        lemma_trichotomy(start[i as int], start[k as int]);
                    }
                    k -= 1;
                }
                proof {
                    lemma_trichotomy(start[i as int], start[k as int]);
                    assert(is_pivot(true, start, i as int));
                    assert(is_partner(true, start, i as int, k as int));
                    lemma_advance_unfold(true, start, i as int, k as int);
                    lemma_advance_is_successor(true, start);
                    lemma_last_iff_no_step(true, start);
                }
                swap(self.elements, i, k);
                reverse_from(self.elements, i + 1);
                return true;
            }
            if i == 0 {
                proof {
                    assert(!has_step(true, start));
                    lemma_no_step_is_last(true, start);
                    assert(reversed_from(start, 0) =~= start.reverse());
                }
                reverse_from(self.elements, 0);
                return false;
            }
        }
    }
}

} // verus!
