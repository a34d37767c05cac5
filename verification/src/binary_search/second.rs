//! Binary search by recursion on the half that can hold the value.
use crate::binary_search::{
    countable, is_search_result, lemma_back, lemma_comparable, lemma_front, lemma_hit,
};
use crate::sorting::order::is_total_order;
use std::cmp::Ordering;
use vstd::prelude::*;
use vstd::string::StringExecFns;

verus! {

/// Looks for `x` in the slice, whose places are counted from `offset` on.
pub fn binary_recurse<T>(values: &[T], x: &T, offset: usize) -> (r: Result<
    Option<usize>,
    String,
>) where T: Ord + PartialOrd
    requires
        is_total_order::<T>(),
        countable(values@, offset),
    ensures
        r is Ok,
        is_search_result(values@, *x, offset, r->Ok_0),
    decreases values@.len(),
{
    if values.is_empty() {
        return Ok(None);
    }
    let n_values: usize = values.len();
    let mid: usize = n_values / 2;
    let x_mid = &values[mid];
    proof {
        lemma_comparable(*x, *x_mid);
    }
    match x.partial_cmp(x_mid) {
        Some(Ordering::Equal) => {
            proof {
                lemma_hit(values@, *x, mid, offset);
            }
            Ok(Some(mid + offset))
        },
        Some(Ordering::Less) => {
            let r = binary_recurse(&values[0..mid], x, offset);
            proof {
                lemma_front(values@, *x, mid, offset, r->Ok_0);
            }
            r
        },
        Some(Ordering::Greater) => {
            let r = binary_recurse(&values[mid + 1..n_values], x, offset + mid + 1);
            proof {
                crate::sorting::order::lemma_comparisons(*x, *x_mid);
                lemma_back(values@, *x, mid, offset, r->Ok_0);
            }
            r
        },
        None => Err(String::from_str("unable to compare values")),
    }
}

/// Looks for `x` in the slice and returns a place at which it stands.  In
/// a sorted slice the value is found if it is there.
pub fn binary_search<T>(values: &[T], x: &T) -> (r: Result<Option<usize>, String>) where
    T: Ord + PartialOrd,

    requires
        is_total_order::<T>(),
    ensures
        r is Ok,
        is_search_result(values@, *x, 0, r->Ok_0),
{
    let n_values: usize = values.len();
    binary_recurse(values, x, 0)
}

} // verus!
