//! Merge sort, once in place and once into a new vector.
use crate::sorting::merge::{
    append_rest, ends_before, lemma_halves_hold_all, lemma_merging_done, lemma_merging_start,
    lemma_runs_in_a_row, lemma_take_left, lemma_take_right, merging,
};
use crate::sorting::order::{is_sorting_of, is_total_order, lemma_comparisons, sorted};
use vstd::prelude::*;
use vstd::seq_lib::group_to_multiset_ensures;
use vstd::slice::slice_to_vec;

verus! {

/// Sorts the slice in place: both halves are sorted, then merged from a
/// copy back into the slice.
pub fn sort_mutate<T: PartialOrd + Copy>(values: &mut [T])
    requires
        is_total_order::<T>(),
    ensures
        is_sorting_of(final(values)@, old(values)@),
    decreases old(values)@.len(),
{
    let len = values.len();
    if len <= 1 {
        proof {
            if len == 1 {
                lemma_comparisons(values@[0], values@[0]);
            }
        }
        return ;
    }
    let mid = len / 2;
    let ghost whole = values@;
    let (front, back) = values.split_at_mut(mid);
    sort_mutate(front);
    sort_mutate(back);
    let ghost left = front@;
    let ghost right = back@;
    proof {
        broadcast use group_to_multiset_ensures;

        assert(left.len() == left.to_multiset().len());
        assert(whole.subrange(0, mid as int).len() == whole.subrange(
            0,
            mid as int,
        ).to_multiset().len());
        assert(right.len() == right.to_multiset().len());
        assert(whole.subrange(mid as int, len as int).len() == whole.subrange(
            mid as int,
            len as int,
        ).to_multiset().len());
        assert(left.len() == mid);
        assert(right.len() == len - mid);
    }
    // a copy of the two runs to take the elements from
    let v = slice_to_vec(values);
    proof {
        assert(v@ == left + right);
        assert(left =~= v@.subrange(0, mid as int));
        assert(right =~= v@.subrange(mid as int, len as int));
        lemma_halves_hold_all(whole, mid as int, left, right);
        lemma_merging_start(left, right);
        assert(values@.subrange(0, 0) =~= Seq::<T>::empty());
    }
    let mut i: usize = 0;
    let mut j: usize = mid;
    let mut current: usize = 0;
    while i < mid && j < len
        invariant
            is_total_order::<T>(),
            values@.len() == len,
            v@.len() == len,
            mid <= len,
            left == v@.subrange(0, mid as int),
            right == v@.subrange(mid as int, len as int),
            sorted(left),
            sorted(right),
            i <= mid,
            mid <= j <= len,
            current == i + (j - mid),
            merging(values@.subrange(0, current as int), left, i as int, right, j - mid),
        decreases len - current,
    {
        let ghost out = values@.subrange(0, current as int);
        proof {
            assert(left[i as int] == v@[i as int]);
            assert(right[j - mid] == v@[j as int]);
            lemma_comparisons(v@[i as int], v@[j as int]);
        }
        if v[i] <= v[j] {
            proof {
                lemma_take_left(out, left, i as int, right, j - mid);
            }
            values[current] = v[i];
            i += 1;
        } else {
            proof {
                lemma_take_right(out, left, i as int, right, j - mid);
            }
            values[current] = v[j];
            j += 1;
        }
        current += 1;
        proof {
            assert(values@.subrange(0, current as int) =~= out.push(values@[current - 1]));
        }
    }
    while i < mid
        invariant
            is_total_order::<T>(),
            values@.len() == len,
            v@.len() == len,
            mid <= len,
            left == v@.subrange(0, mid as int),
            right == v@.subrange(mid as int, len as int),
            sorted(left),
            sorted(right),
            i <= mid,
            mid <= j <= len,
            i == mid || j == len,
            current == i + (j - mid),
            merging(values@.subrange(0, current as int), left, i as int, right, j - mid),
        decreases mid - i,
    {
        let ghost out = values@.subrange(0, current as int);
        proof {
            assert(left[i as int] == v@[i as int]);
            lemma_take_left(out, left, i as int, right, j - mid);
        }
        values[current] = v[i];
        i += 1;
        current += 1;
        proof {
            assert(values@.subrange(0, current as int) =~= out.push(values@[current - 1]));
        }
    }
    while j < len
        invariant
            is_total_order::<T>(),
            values@.len() == len,
            v@.len() == len,
            mid <= len,
            left == v@.subrange(0, mid as int),
            right == v@.subrange(mid as int, len as int),
            sorted(left),
            sorted(right),
            i == mid,
            mid <= j <= len,
            current == i + (j - mid),
            merging(values@.subrange(0, current as int), left, i as int, right, j - mid),
        decreases len - j,
    {
        let ghost out = values@.subrange(0, current as int);
        proof {
            assert(right[j - mid] == v@[j as int]);
            lemma_take_right(out, left, i as int, right, j - mid);
        }
        values[current] = v[j];
        j += 1;
        current += 1;
        proof {
            assert(values@.subrange(0, current as int) =~= out.push(values@[current - 1]));
        }
    }
    proof {
        assert(values@.subrange(0, len as int) =~= values@);
        lemma_merging_done(values@, left, right);
        assert(whole == old(values)@);
    }
}

/// Merges two sorted runs into one.
pub fn merge<T>(a: Vec<T>, b: Vec<T>) -> (out: Vec<T>) where T: PartialEq + PartialOrd + Copy
    requires
        is_total_order::<T>(),
        sorted(a@),
        sorted(b@),
    ensures
        is_sorting_of(out@, a@ + b@),
{
    let mut out: Vec<T> = Vec::new();
    // the smallest value of one run may come after the largest of the other
    if ends_before(a.as_slice(), b.as_slice()) {
        append_rest(&mut out, a.as_slice(), 0);
        append_rest(&mut out, b.as_slice(), 0);
        proof {
            lemma_runs_in_a_row(a@, b@);
            assert(out@ =~= a@ + b@);
        }
        return out;
    } else if ends_before(b.as_slice(), a.as_slice()) {
        append_rest(&mut out, b.as_slice(), 0);
        append_rest(&mut out, a.as_slice(), 0);
        proof {
            lemma_runs_in_a_row(b@, a@);
            assert(out@ =~= b@ + a@);
        }
        return out;
    }
    let mut i: usize = 0;
    let mut j: usize = 0;
    proof {
        lemma_merging_start(a@, b@);
    }
    while i < a.len()
        invariant
            is_total_order::<T>(),
            sorted(a@),
            sorted(b@),
            merging(out@, a@, i as int, b@, j as int),
        decreases a@.len() - i,
    {
        while j < b.len() && b[j] < a[i]
            invariant
                is_total_order::<T>(),
                sorted(a@),
                sorted(b@),
                i < a@.len(),
                merging(out@, a@, i as int, b@, j as int),
            decreases b@.len() - j,
        {
            proof {
                lemma_comparisons(b@[j as int], a@[i as int]);
                lemma_take_right(out@, a@, i as int, b@, j as int);
            }
            out.push(b[j]);
            j += 1;
        }
        proof {
            lemma_take_left(out@, a@, i as int, b@, j as int);
        }
        out.push(a[i]);
        i += 1;
    }
    while j < b.len()
        invariant
            is_total_order::<T>(),
            sorted(a@),
            sorted(b@),
            i == a@.len(),
            merging(out@, a@, i as int, b@, j as int),
        decreases b@.len() - j,
    {
        proof {
            lemma_take_right(out@, a@, i as int, b@, j as int);
        }
        out.push(b[j]);
        j += 1;
    }
    proof {
        lemma_merging_done(out@, a@, b@);
    }
    out
}

/// Returns the elements of the slice in ascending order.
pub fn sort_clone<T>(values: &[T]) -> (out: Vec<T>) where T: PartialEq + PartialOrd + Copy
    requires
        is_total_order::<T>(),
    ensures
        is_sorting_of(out@, values@),
    decreases values@.len(),
{
    let len = values.len();
    // base case
    if len <= 1 {
        let mut copy: Vec<T> = Vec::new();
        append_rest(&mut copy, values, 0);
        proof {
            assert(copy@ =~= values@);
            if len == 1 {
                lemma_comparisons(values@[0], values@[0]);
            }
        }
        return copy;
    }
    let mid = len - len / 2;
    let mut a_: Vec<T> = Vec::new();
    append_rest(&mut a_, &values[0..mid], 0);
    let mut b_: Vec<T> = Vec::new();
    append_rest(&mut b_, &values[mid..len], 0);
    proof {
        assert(a_@ =~= values@.subrange(0, mid as int));
        assert(b_@ =~= values@.subrange(mid as int, len as int));
    }
    let a = sort_clone(a_.as_slice());
    let b = sort_clone(b_.as_slice());
    proof {
        lemma_halves_hold_all(values@, mid as int, a@, b@);
    }
    merge(a, b)
}

} // verus!
