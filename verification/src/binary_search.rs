//! Binary search in a sorted slice.
use crate::sorting::order::{
    at_most, is_total_order, lemma_at_most_less, lemma_comparisons, lemma_less_at_most, less,
    level, same, sorted,
};
use vstd::prelude::*;

pub mod first;
pub mod second;

verus! {

/// No element equals `x`.
pub open spec fn absent<T: PartialOrd>(values: Seq<T>, x: T) -> bool {
    forall|k: int| 0 <= k < values.len() ==> !same(#[trigger] values[k], x)
}

/// What a search for `x` may answer, where the places of `values` are
/// counted from `offset` on: a place at which an element equal to `x`
/// stands, or nothing, which in a sorted sequence means that there is no
/// such element.
pub open spec fn is_search_result<T: PartialOrd>(
    values: Seq<T>,
    x: T,
    offset: usize,
    found: Option<usize>,
) -> bool {
    match found {
        Some(i) => offset <= i < offset + values.len() && same(values[i - offset], x),
        None => sorted(values) ==> absent(values, x),
    }
}

/// The places of the slice can be counted from `offset` on.
pub open spec fn countable<T>(values: Seq<T>, offset: usize) -> bool {
    offset + values.len() <= usize::MAX
}

/// The sequence is empty or `x` comes before all elements from `from` on
/// and after all elements in front of `upto`.
pub open spec fn outside<T: PartialOrd>(values: Seq<T>, x: T, upto: int, from: int) -> bool {
    &&& forall|k: int| 0 <= k < upto && k < values.len() ==> less(#[trigger] values[k], x)
    &&& forall|k: int| from <= k < values.len() && 0 <= k ==> less(x, #[trigger] values[k])
}

/// An element that compares as equal is a hit.
pub proof fn lemma_hit<T: PartialOrd>(values: Seq<T>, x: T, mid: usize, offset: usize)
    requires
        is_total_order::<T>(),
        mid < values.len(),
        countable(values, offset),
        level(x, values[mid as int]) || same(values[mid as int], x),
    ensures
        is_search_result(values, x, offset, Some((mid + offset) as usize)),
{
    lemma_comparisons(x, values[mid as int]);
    lemma_comparisons(values[mid as int], x);
}

/// Where `x` comes before the element probed, the answer for what stands
/// in front of that element is the answer for all.
pub proof fn lemma_front<T: PartialOrd>(
    values: Seq<T>,
    x: T,
    mid: usize,
    offset: usize,
    found: Option<usize>,
)
    requires
        is_total_order::<T>(),
        mid < values.len(),
        less(x, values[mid as int]),
        is_search_result(values.subrange(0, mid as int), x, offset, found),
    ensures
        is_search_result(values, x, offset, found),
{
    let front = values.subrange(0, mid as int);
    match found {
        Some(i) => {
            assert(front[i - offset] == values[i - offset]);
        },
        None => {
            if sorted(values) {
                assert forall|a: int, b: int| 0 <= a <= b < front.len() implies at_most(
                    #[trigger] front[a],
                    #[trigger] front[b],
                ) by {
                    assert(at_most(values[a], values[b]));
                }
                assert forall|k: int| 0 <= k < values.len() implies !same(
                    #[trigger] values[k],
                    x,
                ) by {
                    lemma_comparisons(values[k], x);
                    if k < mid {
                        assert(!same(front[k], x));
                    } else {
                        assert(at_most(values[mid as int], values[k]));
                        lemma_less_at_most(x, values[mid as int], values[k]);
                    }
                }
            }
        },
    }
}

/// Where `x` comes after the element probed, the answer for what stands
/// behind that element is the answer for all.
pub proof fn lemma_back<T: PartialOrd>(
    values: Seq<T>,
    x: T,
    mid: usize,
    offset: usize,
    found: Option<usize>,
)
    requires
        is_total_order::<T>(),
        mid < values.len(),
        countable(values, offset),
        less(values[mid as int], x),
        is_search_result(
            values.subrange(mid + 1, values.len() as int),
            x,
            (offset + mid + 1) as usize,
            found,
        ),
    ensures
        is_search_result(values, x, offset, found),
{
    let back = values.subrange(mid + 1, values.len() as int);
    match found {
        Some(i) => {
            assert(back[i - (offset + mid + 1)] == values[i - offset]);
        },
        None => {
            if sorted(values) {
                assert forall|a: int, b: int| 0 <= a <= b < back.len() implies at_most(
                    #[trigger] back[a],
                    #[trigger] back[b],
                ) by {
                    assert(at_most(values[a + mid + 1], values[b + mid + 1]));
                }
                assert forall|k: int| 0 <= k < values.len() implies !same(
                    #[trigger] values[k],
                    x,
                ) by {
                    lemma_comparisons(values[k], x);
                    if k > mid {
                        assert(back[k - mid - 1] == values[k]);
                        assert(!same(back[k - mid - 1], x));
                    } else {
                        assert(at_most(values[k], values[mid as int]));
                        lemma_at_most_less(values[k], values[mid as int], x);
                    }
                }
            }
        },
    }
}

/// The comparison of two values never fails.
pub proof fn lemma_comparable<T: PartialOrd>(a: T, b: T)
    requires
        is_total_order::<T>(),
    ensures
        crate::sorting::order::comparable(a, b),
{
}

} // verus!
