//! More ways to sort by insertion.
use crate::sorting::exchange::swap;
use crate::sorting::insertion::{
    lemma_sink_done, lemma_sink_start, lemma_sink_step, sorted_except, sorted_front,
};
use crate::sorting::order::{
    at_most, is_sorting_of, is_total_order, lemma_comparisons,
    lemma_exchange_keeps_elements, lemma_less_at_most,
};
use vstd::prelude::*;

verus! {

/// Exchanges the elements at two places of the slice.
pub fn swap_elements_offset<T: PartialOrd>(values: &mut [T], i: usize, j: usize)
    requires
        i < old(values)@.len(),
        j < old(values)@.len(),
    ensures
        final(values)@ == old(values)@.update(i as int, old(values)@[j as int]).update(
            j as int,
            old(values)@[i as int],
        ),
{
    swap(values, i, j);
}

/// Sorts the slice in place: each element sinks until its neighbour in
/// front does not come after it.
pub fn sort_inplace<T: PartialOrd>(values: &mut [T])
    requires
        is_total_order::<T>(),
    ensures
        is_sorting_of(final(values)@, old(values)@),
{
    let n = values.len();
    let mut i: usize = 1;
    proof {
        if n > 0 {
            lemma_comparisons(values@[0], values@[0]);
        }
    }
    while i < n
        invariant
            is_total_order::<T>(),
            values@.len() == n,
            1 <= i,
            values@.to_multiset() == old(values)@.to_multiset(),
            sorted_front(values@, i as int),
        decreases n - i,
    {
        let mut j: usize = i;
        proof {
            lemma_sink_start(values@, i as int);
        }
        while j > 0 && values[j - 1] > values[j]
            invariant
                is_total_order::<T>(),
                values@.len() == n,
                j <= i < n,
                values@.to_multiset() == old(values)@.to_multiset(),
                sorted_except(values@, j as int, i as int),
            decreases j,
        {
            proof {
                lemma_comparisons(values@[j - 1], values@[j as int]);
                lemma_sink_step(values@, j as int, i as int);
                lemma_exchange_keeps_elements(values@, j - 1, j as int);
                assert(values@.update(j - 1, values@[j as int]).update(j as int, values@[j - 1])
                    =~= values@.update(j as int, values@[j - 1]).update(j - 1, values@[j as int]));
            }
            swap(values, j - 1, j);
            j -= 1;
        }
        proof {
            if j > 0 {
                lemma_comparisons(values@[j - 1], values@[j as int]);
            }
            lemma_sink_done(values@, j as int, i as int);
        }
        i += 1;
    }
}

/// Sorts the slice in place: each element is walked all the way to the
/// front and exchanged wherever its neighbour in front comes after it.
pub fn sort_inplace2<T: PartialOrd>(values: &mut [T])
    requires
        is_total_order::<T>(),
    ensures
        is_sorting_of(final(values)@, old(values)@),
{
    let n = values.len();
    let mut i: usize = 1;
    proof {
        if n > 0 {
            lemma_comparisons(values@[0], values@[0]);
        }
    }
    while i < n
        invariant
            is_total_order::<T>(),
            values@.len() == n,
            1 <= i,
            values@.to_multiset() == old(values)@.to_multiset(),
            sorted_front(values@, i as int),
        decreases n - i,
    {
        let mut j: usize = i;
        proof {
            lemma_sink_start(values@, i as int);
        }
        while j >= 1
            invariant
                is_total_order::<T>(),
                values@.len() == n,
                j <= i < n,
                values@.to_multiset() == old(values)@.to_multiset(),
                sorted_except(values@, j as int, i as int),
            decreases j,
        {
            proof {
                lemma_comparisons(values@[j - 1], values@[j as int]);
            }
            if values[j - 1] > values[j] {
                proof {
                    lemma_sink_step(values@, j as int, i as int);
                    lemma_exchange_keeps_elements(values@, j - 1, j as int);
                    assert(values@.update(j - 1, values@[j as int]).update(
                        j as int,
                        values@[j - 1],
                    ) =~= values@.update(j as int, values@[j - 1]).update(
                        j - 1,
                        values@[j as int],
                    ));
                }
                swap(values, j - 1, j);
            } else {
                proof {
                    lemma_sink_done(values@, j as int, i as int);
                }
            }
            j -= 1;
        }
        proof {
            lemma_sink_done(values@, 0, i as int);
        }
        i += 1;
    }
}

/// Sorts the slice in place: each element is exchanged with every element
/// in front that comes after it, from the first one on.
pub fn sort_inplace3<T: PartialOrd>(values: &mut [T])
    requires
        is_total_order::<T>(),
    ensures
        is_sorting_of(final(values)@, old(values)@),
{
    let n = values.len();
    let mut i: usize = 1;
    proof {
        if n > 0 {
            lemma_comparisons(values@[0], values@[0]);
        }
    }
    while i < n
        invariant
            is_total_order::<T>(),
            values@.len() == n,
            1 <= i,
            values@.to_multiset() == old(values)@.to_multiset(),
            sorted_front(values@, i as int),
        decreases n - i,
    {
        let mut j: usize = 0;
        while j < i
            invariant
                is_total_order::<T>(),
                values@.len() == n,
                j <= i < n,
                values@.to_multiset() == old(values)@.to_multiset(),
                sorted_front(values@, i as int),
                forall|a: int| 0 <= a < j ==> at_most(#[trigger] values@[a], values@[i as int]),
            decreases i - j,
        {
            let ghost s = values@;
            proof {
                lemma_comparisons(s[i as int], s[j as int]);
            }
            if values[i] < values[j] {
                swap(values, i, j);
                proof {
                    lemma_exchange_keeps_elements(s, i as int, j as int);
                    let t = values@;
                    assert forall|a: int, b: int| 0 <= a <= b < i && b < t.len() implies at_most(
                        #[trigger] t[a],
                        #[trigger] t[b],
                    ) by {
                        lemma_comparisons(t[a], t[b]);
                        if a == b {
                        } else if b == j {
                            assert(at_most(s[a], s[i as int]));
                        } else if a == j {
                            assert(at_most(s[j as int], s[b]));
                            lemma_less_at_most(s[i as int], s[j as int], s[b]);
                        } else {
                            assert(at_most(s[a], s[b]));
                        }
                    }
                    assert forall|a: int| 0 <= a < j + 1 implies at_most(
                        #[trigger] t[a],
                        t[i as int],
                    ) by {
                        if a < j {
                            assert(at_most(s[a], s[j as int]));
                        }
                    }
                }
            }
            j += 1;
        }
        proof {
            let s = values@;
            assert forall|a: int, b: int| 0 <= a <= b < i + 1 && b < s.len() implies at_most(
                #[trigger] s[a],
                #[trigger] s[b],
            ) by {
                lemma_comparisons(s[a], s[b]);
                if b == i && a < i {
                    assert(at_most(s[a], s[i as int]));
                }
            }
        }
        i += 1;
    }
}

/// Sorts the slice in place as `sort_inplace2` does, exchanging elements
/// through `swap_elements_offset`.
pub fn sort_inplace_ptrs<T: PartialOrd>(values: &mut [T])
    requires
        is_total_order::<T>(),
    ensures
        is_sorting_of(final(values)@, old(values)@),
{
    let n = values.len();
    let mut i: usize = 1;
    proof {
        if n > 0 {
            lemma_comparisons(values@[0], values@[0]);
        }
    }
    while i < n
        invariant
            is_total_order::<T>(),
            values@.len() == n,
            1 <= i,
            values@.to_multiset() == old(values)@.to_multiset(),
            sorted_front(values@, i as int),
        decreases n - i,
    {
        let mut j: usize = i;
        proof {
            lemma_sink_start(values@, i as int);
        }
        while j >= 1
            invariant
                is_total_order::<T>(),
                values@.len() == n,
                j <= i < n,
                values@.to_multiset() == old(values)@.to_multiset(),
                sorted_except(values@, j as int, i as int),
            decreases j,
        {
            proof {
                lemma_comparisons(values@[j - 1], values@[j as int]);
            }
            if values[j - 1] > values[j] {
                proof {
                    lemma_sink_step(values@, j as int, i as int);
                    lemma_exchange_keeps_elements(values@, j - 1, j as int);
                    assert(values@.update(j - 1, values@[j as int]).update(
                        j as int,
                        values@[j - 1],
                    ) =~= values@.update(j as int, values@[j - 1]).update(
                        j - 1,
                        values@[j as int],
                    ));
                }
                swap_elements_offset(values, j - 1, j);
            } else {
                proof {
                    lemma_sink_done(values@, j as int, i as int);
                }
            }
            j -= 1;
        }
        proof {
            lemma_sink_done(values@, 0, i as int);
        }
        i += 1;
    }
}

} // verus!
