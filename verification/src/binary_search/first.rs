//! Binary search by a loop over a shrinking window.
use crate::binary_search::{absent, is_search_result};
use crate::sorting::order::{
    at_most, is_total_order, lemma_at_most_less, lemma_comparisons, lemma_less_at_most, less,
    same, sorted,
};
use vstd::prelude::*;

verus! {

/// Looks for `value` in the slice and returns a place at which it stands.
/// In a sorted slice the value is found if it is there.
pub fn binary_search<T>(data: &[T], value: &T) -> (found: Option<usize>) where
    T: PartialOrd + PartialEq,

    requires
        is_total_order::<T>(),
    ensures
        is_search_result(data@, *value, 0, found),
{
    let mut max_idx: usize = data.len();
    let mut min_idx: usize = 0;
    while min_idx < max_idx
        invariant
            is_total_order::<T>(),
            min_idx <= max_idx <= data@.len(),
            sorted(data@) ==> forall|k: int|
                0 <= k < min_idx ==> less(#[trigger] data@[k], *value),
            sorted(data@) ==> forall|k: int|
                max_idx <= k < data@.len() ==> less(*value, #[trigger] data@[k]),
        decreases max_idx - min_idx,
    {
        let mid: usize = min_idx + (max_idx - min_idx) / 2;
        let result = &data[mid];
        proof {
            lemma_comparisons(*result, *value);
            lemma_comparisons(*value, *result);
        }
        if result == value {
            return Some(mid);
        }
        if result > value {
            proof {
                if sorted(data@) {
                    assert forall|k: int| mid <= k < data@.len() implies less(
                        *value,
                        #[trigger] data@[k],
                    ) by {
                        assert(at_most(data@[mid as int], data@[k]));
                        lemma_less_at_most(*value, data@[mid as int], data@[k]);
                    }
                }
            }
            max_idx = mid;
        } else {
            proof {
                if sorted(data@) {
                    assert forall|k: int| 0 <= k < mid + 1 implies less(
                        #[trigger] data@[k],
                        *value,
                    ) by {
                        assert(at_most(data@[k], data@[mid as int]));
                        lemma_at_most_less(data@[k], data@[mid as int], *value);
                    }
                }
            }
            min_idx = mid + 1;
        }
    }
    proof {
        if sorted(data@) {
            assert forall|k: int| 0 <= k < data@.len() implies !same(
                #[trigger] data@[k],
                *value,
            ) by {
                lemma_comparisons(data@[k], *value);
            }
            assert(absent(data@, *value));
        }
    }
    None
}

} // verus!
