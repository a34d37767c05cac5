//! Insertion sort, strictly in place.
use crate::sorting::exchange::swap;
use crate::sorting::order::{
    at_most, exchanged, is_sorting_of, is_total_order, less, lemma_at_most_trans,
    lemma_comparisons, lemma_exchange_keeps_elements,
};
use vstd::prelude::*;

pub mod second;

verus! {

/// The elements at `0 ..= hi` are in order, but for the one at `at`, which
/// may come before elements in front of it.
pub open spec fn sorted_except<T: PartialOrd>(s: Seq<T>, at: int, hi: int) -> bool {
    forall|a: int, b: int|
        0 <= a <= b <= hi && b < s.len() && !(a < at && b == at) ==> at_most(
            #[trigger] s[a],
            #[trigger] s[b],
        )
}

/// The first `count` elements are in order.
pub open spec fn sorted_front<T: PartialOrd>(s: Seq<T>, count: int) -> bool {
    forall|a: int, b: int|
        0 <= a <= b < count && b < s.len() ==> at_most(#[trigger] s[a], #[trigger] s[b])
}

/// With the front in order, only the next element can be out of place.
pub proof fn lemma_sink_start<T: PartialOrd>(s: Seq<T>, hi: int)
    requires
        is_total_order::<T>(),
        0 <= hi < s.len(),
        sorted_front(s, hi),
    ensures
        sorted_except(s, hi, hi),
{
    lemma_comparisons(s[hi], s[hi]);
}

/// An element that comes before its neighbour in front moves one place
/// forward, and is then the only one that can be out of place.
pub proof fn lemma_sink_step<T: PartialOrd>(s: Seq<T>, at: int, hi: int)
    requires
        is_total_order::<T>(),
        0 < at <= hi < s.len(),
        sorted_except(s, at, hi),
        less(s[at], s[at - 1]),
    ensures
        sorted_except(exchanged(s, at, at - 1), at - 1, hi),
{
    let t = exchanged(s, at, at - 1);
    lemma_comparisons(s[at], s[at - 1]);
    assert forall|a: int, b: int|
        0 <= a <= b <= hi && b < t.len() && !(a < at - 1 && b == at - 1) implies at_most(
        #[trigger] t[a],
        #[trigger] t[b],
    ) by {
        lemma_comparisons(t[a], t[b]);
        if a == b {
        } else if b == at {
            if a < at - 1 {
                assert(at_most(s[a], s[at - 1]));
            }
        } else if b > at {
            if a == at - 1 {
                assert(at_most(s[at], s[b]));
            } else if a == at {
                assert(at_most(s[at - 1], s[b]));
            } else {
                assert(at_most(s[a], s[b]));
            }
        } else {
            assert(at_most(s[a], s[b]));
        }
    }
}

/// An element that does not come before its neighbour in front is in
/// place.
pub proof fn lemma_sink_done<T: PartialOrd>(s: Seq<T>, at: int, hi: int)
    requires
        is_total_order::<T>(),
        0 <= at <= hi < s.len(),
        sorted_except(s, at, hi),
        at == 0 || at_most(s[at - 1], s[at]),
    ensures
        sorted_front(s, hi + 1),
        sorted_except(s, at - 1, hi),
{
    assert forall|a: int, b: int| 0 <= a <= b < hi + 1 && b < s.len() implies at_most(
        #[trigger] s[a],
        #[trigger] s[b],
    ) by {
        if a < at && b == at {
            if a < at - 1 {
                assert(at_most(s[a], s[at - 1]));
                lemma_at_most_trans(s[a], s[at - 1], s[at]);
            }
        }
    }
}

/// Sorts the slice in place.
pub fn sort<T>(values: &mut [T]) where T: PartialEq + PartialOrd
    requires
        is_total_order::<T>(),
    ensures
        is_sorting_of(final(values)@, old(values)@),
{
    let n = values.len();
    let mut i: usize = 1;
    proof {
        if n > 0 {
            lemma_comparisons(values@[0], values@[0]);
        }
    }
    while i < n
        invariant
            is_total_order::<T>(),
            values@.len() == n,
            1 <= i,
            values@.to_multiset() == old(values)@.to_multiset(),
            sorted_front(values@, i as int),
        decreases n - i,
    {
        let mut k: usize = i;
        proof {
            lemma_sink_start(values@, i as int);
        }
        while k > 0 && values[k] < values[k - 1]
            invariant
                is_total_order::<T>(),
                values@.len() == n,
                k <= i < n,
                values@.to_multiset() == old(values)@.to_multiset(),
                sorted_except(values@, k as int, i as int),
            decreases k,
        {
            proof {
                lemma_sink_step(values@, k as int, i as int);
                lemma_exchange_keeps_elements(values@, k as int, k - 1);
            }
            swap(values, k, k - 1);
            k -= 1;
        }
        proof {
            if k > 0 {
                lemma_comparisons(values@[k as int], values@[k - 1]);
            }
            lemma_sink_done(values@, k as int, i as int);
        }
        i += 1;
    }
}

} // verus!
