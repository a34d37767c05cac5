//! Bubble sort.
use crate::sorting::exchange::swap;
use crate::sorting::order::{
    at_most, is_sorting_of, is_total_order, lemma_at_most_trans, lemma_comparisons,
    lemma_exchange_keeps_elements, lemma_neighbours_in_order, sorted,
};
use vstd::prelude::*;

pub mod second;

verus! {

/// The first `count` elements are in order and none of them comes after
/// any later element.
pub open spec fn front_settled<T: PartialOrd>(s: Seq<T>, count: int) -> bool {
    forall|a: int, b: int|
        0 <= a < count && a <= b < s.len() ==> at_most(#[trigger] s[a], #[trigger] s[b])
}

/// Sorts the slice in place.  Each pass lets the least of the remaining
/// elements sink to the front; a pass that moves nothing ends the work.
pub fn sort<T>(values: &mut [T]) where T: PartialEq + PartialOrd
    requires
        is_total_order::<T>(),
    ensures
        is_sorting_of(final(values)@, old(values)@),
{
    let n = values.len();
    if n == 0 {
        return ;
    }
    let mut i: usize = 0;
    let mut done = false;
    while i < n - 1 && !done
        invariant
            is_total_order::<T>(),
            values@.len() == n,
            n > 0,
            i <= n - 1,
            values@.to_multiset() == old(values)@.to_multiset(),
            front_settled(values@, i as int),
            done ==> sorted(values@),
        decreases n - i + (if done {
            0int
        } else {
            1int
        }),
    {
        let mut swapped = false;
        let mut j: usize = n - 1;
        proof {
            lemma_comparisons(values@[j as int], values@[j as int]);
        }
        while j > i
            invariant
                is_total_order::<T>(),
                values@.len() == n,
                i < n - 1,
                i <= j <= n - 1,
                values@.to_multiset() == old(values)@.to_multiset(),
                front_settled(values@, i as int),
                forall|k: int| j <= k < n ==> at_most(values@[j as int], #[trigger] values@[k]),
                !swapped ==> forall|k: int|
                    j < k < n ==> at_most(values@[k - 1], #[trigger] values@[k]),
            decreases j,
        {
            let ghost s = values@;
            proof {
                lemma_comparisons(s[j as int], s[j - 1]);
                lemma_comparisons(s[j - 1], s[j - 1]);
            }
            if values[j] < values[j - 1] {
                swap(values, j, j - 1);
                swapped = true;
                proof {
                    lemma_exchange_keeps_elements(s, j as int, j - 1);
                    let t = values@;
                    assert forall|a: int, b: int| 0 <= a < i && a <= b < n implies at_most(
                        #[trigger] t[a],
                        #[trigger] t[b],
                    ) by {
                        assert(t[a] == s[a]);
                        if b == j {
                            assert(at_most(s[a], s[j - 1]));
                        } else if b == j - 1 {
                            assert(at_most(s[a], s[j as int]));
                        } else {
                            assert(at_most(s[a], s[b]));
                        }
                    }
                    assert forall|k: int| j - 1 <= k < n implies at_most(
                        t[j - 1],
                        #[trigger] t[k],
                    ) by {
                        if k > j {
                            assert(at_most(s[j as int], s[k]));
                        }
                    }
                }
            } else {
                proof {
                    assert forall|k: int| j - 1 <= k < n implies at_most(
                        s[j - 1],
                        #[trigger] s[k],
                    ) by {
                        if k >= j {
                            assert(at_most(s[j as int], s[k]));
                            lemma_at_most_trans(s[j - 1], s[j as int], s[k]);
                        }
                    }
                }
            }
            j -= 1;
        }
        if !swapped {
            proof {
                let s = values@;
                lemma_neighbours_in_order(s, i as int, n as int);
                assert forall|a: int, b: int| 0 <= a <= b < n implies at_most(
                    #[trigger] s[a],
                    #[trigger] s[b],
                ) by {
                    if a < i {
                        assert(front_settled(s, i as int));
                    }
                }
            }
            done = true;
        } else {
            proof {
                let s = values@;
                assert forall|a: int, b: int| 0 <= a < i + 1 && a <= b < n implies at_most(
                    #[trigger] s[a],
                    #[trigger] s[b],
                ) by {
                    if a == i {
                        assert(at_most(s[i as int], s[b]));
                    }
                }
            }
            i += 1;
        }
    }
    proof {
        let s = values@;
        if !done {
            assert forall|a: int, b: int| 0 <= a <= b < n implies at_most(
                #[trigger] s[a],
                #[trigger] s[b],
            ) by {
                lemma_comparisons(s[a], s[b]);
            }
        }
    }
}

} // verus!
