//! Merge sort that returns a new vector.
use crate::sorting::merge::{
    append_rest, ends_before, lemma_halves_hold_all, lemma_merging_done, lemma_merging_start,
    lemma_runs_in_a_row, lemma_take_left, lemma_take_right, merging,
};
use crate::sorting::order::{is_sorting_of, is_total_order, lemma_comparisons, sorted};
use vstd::prelude::*;

verus! {

/// Merges two sorted runs into one.
pub fn merge<T: Copy + PartialOrd>(left: &[T], right: &[T]) -> (out: Vec<T>)
    requires
        is_total_order::<T>(),
        sorted(left@),
        sorted(right@),
    ensures
        is_sorting_of(out@, left@ + right@),
{
    let mut out: Vec<T> = Vec::new();
    // the runs may lie one after the other
    if ends_before(left, right) {
        append_rest(&mut out, left, 0);
        append_rest(&mut out, right, 0);
        proof {
            lemma_runs_in_a_row(left@, right@);
            assert(out@ =~= left@ + right@);
        }
        return out;
    } else if ends_before(right, left) {
        append_rest(&mut out, right, 0);
        append_rest(&mut out, left, 0);
        proof {
            lemma_runs_in_a_row(right@, left@);
            assert(out@ =~= right@ + left@);
        }
        return out;
    }
    let mut xi: usize = 0;
    let mut yi: usize = 0;
    proof {
        lemma_merging_start(left@, right@);
    }
    while xi < left.len() && yi < right.len()
        invariant
            is_total_order::<T>(),
            sorted(left@),
            sorted(right@),
            merging(out@, left@, xi as int, right@, yi as int),
        decreases left@.len() - xi + right@.len() - yi,
    {
        proof {
            lemma_comparisons(left@[xi as int], right@[yi as int]);
            lemma_comparisons(right@[yi as int], left@[xi as int]);
        }
        if left[xi] > right[yi] {
            proof {
                lemma_take_right(out@, left@, xi as int, right@, yi as int);
            }
            out.push(right[yi]);
            yi += 1;
        } else {
            proof {
                lemma_take_left(out@, left@, xi as int, right@, yi as int);
            }
            out.push(left[xi]);
            xi += 1;
        }
    }
    while xi < left.len()
        invariant
            is_total_order::<T>(),
            sorted(left@),
            sorted(right@),
            merging(out@, left@, xi as int, right@, yi as int),
            xi == left@.len() || yi == right@.len(),
        decreases left@.len() - xi,
    {
        proof {
            lemma_take_left(out@, left@, xi as int, right@, yi as int);
        }
        out.push(left[xi]);
        xi += 1;
    }
    while yi < right.len()
        invariant
            is_total_order::<T>(),
            sorted(left@),
            sorted(right@),
            merging(out@, left@, xi as int, right@, yi as int),
            xi == left@.len(),
        decreases right@.len() - yi,
    {
        proof {
            lemma_take_right(out@, left@, xi as int, right@, yi as int);
        }
        out.push(right[yi]);
        yi += 1;
    }
    proof {
        lemma_merging_done(out@, left@, right@);
    }
    out
}

/// Returns the elements of the slice in ascending order.
pub fn sort<T: Copy + PartialOrd>(values: &[T]) -> (out: Vec<T>)
    requires
        is_total_order::<T>(),
    ensures
        is_sorting_of(out@, values@),
    decreases values@.len(),
{
    let n_values = values.len();
    if n_values <= 1 {
        let mut copy: Vec<T> = Vec::new();
        append_rest(&mut copy, values, 0);
        proof {
            assert(copy@ =~= values@);
            if n_values == 1 {
                lemma_comparisons(values@[0], values@[0]);
            }
        }
        return copy;
    }
    let mid = n_values / 2;
    let left = sort(&values[0..mid]);
    let right = sort(&values[mid..n_values]);
    let merged = merge(left.as_slice(), right.as_slice());
    proof {
        lemma_halves_hold_all(values@, mid as int, left@, right@);
    }
    merged
}

} // verus!
