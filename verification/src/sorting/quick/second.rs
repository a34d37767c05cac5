//! Quicksort that moves the pivot through the slice.
use crate::sorting::exchange::swap;
use crate::sorting::order::{
    at_most, is_sorting_of, is_total_order, lemma_comparisons, lemma_exchange_keeps_elements,
};
use crate::sorting::quick::{lemma_parts_sorted, parted, random_index};
use vstd::prelude::*;

verus! {

/// Picks the place of the pivot at random.
pub fn get_pivot_idx(n_values: usize) -> (idx: usize)
    requires
        n_values > 0,
    ensures
        idx < n_values,
{
    random_index(n_values)
}

/// While the pivot moves: what stands in front of both the pivot and
/// place `upto` does not come after the pivot, and what stands behind the
/// pivot and in front of place `upto` or place `seen` does not come
/// before it.
pub open spec fn moving<T: PartialOrd>(s: Seq<T>, pivot: int, upto: int, seen: int) -> bool {
    &&& 0 <= pivot < s.len()
    &&& forall|k: int| 0 <= k < pivot && k < upto ==> at_most(#[trigger] s[k], s[pivot])
    &&& forall|k: int|
        pivot < k < s.len() && (k < upto || k < seen) ==> at_most(s[pivot], #[trigger] s[k])
}

/// Sorts the slice in place.
pub fn sort_inplace<T: PartialOrd>(values: &mut [T])
    requires
        is_total_order::<T>(),
    ensures
        is_sorting_of(final(values)@, old(values)@),
    decreases old(values)@.len(),
{
    let n = values.len();
    if n < 2 {
        proof {
            if n == 1 {
                lemma_comparisons(values@[0], values@[0]);
            }
        }
        return ;
    }
    let mut pivot = get_pivot_idx(n);
    let ghost seen: int = pivot + 1;
    let mut i: usize = 0;
    while i < n
        invariant
            is_total_order::<T>(),
            values@.len() == n,
            i <= n,
            pivot < n,
            0 <= seen <= n,
            values@.to_multiset() == old(values)@.to_multiset(),
            moving(values@, pivot as int, i as int, seen),
        decreases
                n - i,
                (if i <= pivot {
                    pivot - i
                } else {
                    n + 1
                }),
    {
        let ghost s = values@;
        if i == pivot {
            i += 1;
        } else if i < pivot {
            proof {
                lemma_comparisons(s[i as int], s[pivot as int]);
            }
            if values[i] > values[pivot] {
                swap(values, pivot, pivot - 1);
                let ghost t = values@;
                proof {
                    lemma_exchange_keeps_elements(s, pivot as int, pivot - 1);
                }
                if i < pivot - 1 {
                    swap(values, pivot, i);
                    proof {
                        lemma_exchange_keeps_elements(t, pivot as int, i as int);
                    }
                }
                proof {
                    let u = values@;
                    assert(u[pivot - 1] == s[pivot as int]);
                    assert(u[pivot as int] == s[i as int]);
                    assert forall|k: int| 0 <= k < pivot - 1 && k < i implies at_most(
                        #[trigger] u[k],
                        u[pivot - 1],
                    ) by {
                        assert(u[k] == s[k]);
                    }
                    assert forall|k: int|
                        pivot - 1 < k < u.len() && (k < i || k < seen) implies at_most(
                        u[pivot - 1],
                        #[trigger] u[k],
                    ) by {
                        if k > pivot {
                            assert(u[k] == s[k]);
                        }
                    }
                }
                pivot -= 1;
            } else {
                i += 1;
            }
        } else {
            proof {
                lemma_comparisons(s[i as int], s[pivot as int]);
                lemma_comparisons(s[pivot as int], s[i as int]);
            }
            if values[i] < values[pivot] {
                swap(values, pivot, pivot + 1);
                let ghost t = values@;
                proof {
                    lemma_exchange_keeps_elements(s, pivot as int, pivot + 1);
                }
                if i > pivot + 1 {
                    swap(values, pivot, i);
                    proof {
                        lemma_exchange_keeps_elements(t, pivot as int, i as int);
                        let u = values@;
                        assert(u[pivot + 1] == s[pivot as int]);
                        assert(u[pivot as int] == s[i as int]);
                        assert(u[i as int] == s[pivot + 1]);
                        assert(at_most(s[pivot as int], s[pivot + 1]));
                        assert forall|k: int| 0 <= k < pivot + 1 && k < i + 1 implies at_most(
                            #[trigger] u[k],
                            u[pivot + 1],
                        ) by {
                            if k < pivot {
                                assert(u[k] == s[k]);
                            }
                        }
                        assert forall|k: int|
                            pivot + 1 < k < u.len() && (k < i + 1 || k < seen) implies at_most(
                            u[pivot + 1],
                            #[trigger] u[k],
                        ) by {
                            if k != i {
                                assert(u[k] == s[k]);
                            }
                        }
                    }
                    i += 1;
                } else {
                    proof {
                        let u = values@;
                        assert(u[pivot + 1] == s[pivot as int]);
                        assert(u[pivot as int] == s[i as int]);
                        assert forall|k: int| 0 <= k < pivot + 1 && k < i implies at_most(
                            #[trigger] u[k],
                            u[pivot + 1],
                        ) by {
                            if k < pivot {
                                assert(u[k] == s[k]);
                            }
                        }
                        assert forall|k: int|
                            pivot + 1 < k < u.len() && (k < i || k < seen) implies at_most(
                            u[pivot + 1],
                            #[trigger] u[k],
                        ) by {
                            assert(u[k] == s[k]);
                        }
                    }
                }
                pivot += 1;
            } else {
                i += 1;
            }
        }
    }
    let ghost before = values@;
    proof {
        lemma_comparisons(before[pivot as int], before[pivot as int]);
        assert(parted(before, pivot as int, before[pivot as int]));
    }
    let (front, rest) = values.split_at_mut(pivot);
    sort_inplace(front);
    let (_middle, back) = rest.split_at_mut(1);
    sort_inplace(back);
    proof {
        assert(_middle@ =~= seq![before[pivot as int]]);
        assert(before.subrange(pivot as int, n as int).subrange(1, n - pivot) =~= before.subrange(
            pivot + 1,
            n as int,
        ));
        lemma_parts_sorted(before, pivot as int, before[pivot as int], front@, back@);
    }
}

} // verus!
