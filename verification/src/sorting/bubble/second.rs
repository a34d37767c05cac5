//! Bubble sort that lets the greatest element rise, pass after pass,
//! until a pass moves nothing.
use crate::sorting::exchange::swap;
use crate::sorting::order::{
    at_most, is_sorting_of, is_total_order, lemma_at_most_trans, lemma_comparisons,
    lemma_exchange_keeps_elements, lemma_neighbours_in_order, sorted,
};
use vstd::prelude::*;

verus! {

/// The last `count` elements are in order and none of them comes before
/// any earlier element.
pub open spec fn back_settled<T: PartialOrd>(s: Seq<T>, count: int) -> bool {
    forall|a: int, b: int|
        0 <= a <= b < s.len() && s.len() - count <= b ==> at_most(
            #[trigger] s[a],
            #[trigger] s[b],
        )
}

/// Exchanges the elements at two places of the slice.
pub fn swap_elements_offset<T>(values: &mut [T], i: usize, j: usize)
    requires
        i < old(values)@.len(),
        j < old(values)@.len(),
    ensures
        final(values)@ == old(values)@.update(i as int, old(values)@[j as int]).update(
            j as int,
            old(values)@[i as int],
        ),
{
    swap(values, i, j);
}

/// Sorts the slice in place.
pub fn sort<T: PartialOrd>(values: &mut [T])
    requires
        is_total_order::<T>(),
    ensures
        is_sorting_of(final(values)@, old(values)@),
{
    let n = values.len();
    if n == 0 {
        return ;
    }
    let mut modified = true;
    let ghost mut settled: int = 0;
    while modified
        invariant
            is_total_order::<T>(),
            values@.len() == n,
            n > 0,
            0 <= settled <= n,
            values@.to_multiset() == old(values)@.to_multiset(),
            back_settled(values@, settled),
            !modified ==> sorted(values@),
        decreases n - settled + (if modified {
            1int
        } else {
            0int
        }),
    {
        modified = false;
        let mut i: usize = 0;
        proof {
            lemma_comparisons(values@[0], values@[0]);
        }
        while i < n - 1
            invariant
                is_total_order::<T>(),
                values@.len() == n,
                n > 0,
                0 <= settled <= n,
                i <= n - 1,
                values@.to_multiset() == old(values)@.to_multiset(),
                back_settled(values@, settled),
                forall|k: int| 0 <= k <= i ==> at_most(#[trigger] values@[k], values@[i as int]),
                !modified ==> forall|k: int|
                    0 < k <= i ==> at_most(values@[k - 1], #[trigger] values@[k]),
                settled < n && i >= n - settled - 1 ==> forall|k: int|
                    0 <= k <= n - settled - 1 ==> at_most(
                        #[trigger] values@[k],
                        values@[n - settled - 1],
                    ),
                settled == n ==> !modified,
            decreases n - i,
        {
            let ghost s = values@;
            proof {
                lemma_comparisons(s[i as int], s[i + 1]);
                lemma_comparisons(s[i + 1], s[i as int]);
                lemma_comparisons(s[i + 1], s[i + 1]);
                if i + 1 >= n - settled {
                    assert(at_most(s[i as int], s[i + 1]));
                }
            }
            if values[i] > values[i + 1] {
                swap(values, i, i + 1);
                modified = true;
                proof {
                    lemma_exchange_keeps_elements(s, i as int, i + 1);
                    let t = values@;
                    assert(i + 1 < n - settled);
                    assert forall|a: int, b: int|
                        0 <= a <= b < t.len() && t.len() - settled <= b implies at_most(
                        #[trigger] t[a],
                        #[trigger] t[b],
                    ) by {
                        assert(t[b] == s[b]);
                        if a == i {
                            assert(at_most(s[i + 1], s[b]));
                        } else if a == i + 1 {
                            assert(at_most(s[i as int], s[b]));
                        } else {
                            assert(at_most(s[a], s[b]));
                        }
                    }
                    assert forall|k: int| 0 <= k <= i + 1 implies at_most(
                        #[trigger] t[k],
                        t[i + 1],
                    ) by {
                        if k < i {
                            assert(at_most(s[k], s[i as int]));
                        }
                    }
                }
            } else {
                proof {
                    assert forall|k: int| 0 <= k <= i + 1 implies at_most(
                        #[trigger] s[k],
                        s[i + 1],
                    ) by {
                        if k <= i {
                            assert(at_most(s[k], s[i as int]));
                            lemma_at_most_trans(s[k], s[i as int], s[i + 1]);
                        }
                    }
                }
            }
            i += 1;
        }
        proof {
            let s = values@;
            if !modified {
                lemma_neighbours_in_order(s, 0, n as int);
            }
            if settled < n {
                assert forall|a: int, b: int|
                    0 <= a <= b < s.len() && s.len() - (settled + 1) <= b implies at_most(
                    #[trigger] s[a],
                    #[trigger] s[b],
                ) by {
                    if b == n - settled - 1 {
                        assert(at_most(s[a], s[n - settled - 1]));
                    } else {
                        assert(back_settled(s, settled));
                    }
                }
                settled = settled + 1;
            }
        }
    }
}

/// Sorts the slice in place, exchanging elements through
/// `swap_elements_offset`.
pub fn sort_ptr<T: PartialOrd>(values: &mut [T])
    requires
        is_total_order::<T>(),
    ensures
        is_sorting_of(final(values)@, old(values)@),
{
    let n = values.len();
    if n == 0 {
        return ;
    }
    let mut modified = true;
    let ghost mut settled: int = 0;
    while modified
        invariant
            is_total_order::<T>(),
            values@.len() == n,
            n > 0,
            0 <= settled <= n,
            values@.to_multiset() == old(values)@.to_multiset(),
            back_settled(values@, settled),
            !modified ==> sorted(values@),
        decreases n - settled + (if modified {
            1int
        } else {
            0int
        }),
    {
        modified = false;
        let mut i: usize = 0;
        proof {
            lemma_comparisons(values@[0], values@[0]);
        }
        while i < n - 1
            invariant
                is_total_order::<T>(),
                values@.len() == n,
                n > 0,
                0 <= settled <= n,
                i <= n - 1,
                values@.to_multiset() == old(values)@.to_multiset(),
                back_settled(values@, settled),
                forall|k: int| 0 <= k <= i ==> at_most(#[trigger] values@[k], values@[i as int]),
                !modified ==> forall|k: int|
                    0 < k <= i ==> at_most(values@[k - 1], #[trigger] values@[k]),
                settled < n && i >= n - settled - 1 ==> forall|k: int|
                    0 <= k <= n - settled - 1 ==> at_most(
                        #[trigger] values@[k],
                        values@[n - settled - 1],
                    ),
                settled == n ==> !modified,
            decreases n - i,
        {
            let ghost s = values@;
            proof {
                lemma_comparisons(s[i as int], s[i + 1]);
                lemma_comparisons(s[i + 1], s[i as int]);
                lemma_comparisons(s[i + 1], s[i + 1]);
                if i + 1 >= n - settled {
                    assert(at_most(s[i as int], s[i + 1]));
                }
            }
            if values[i] > values[i + 1] {
                swap_elements_offset(values, i, i + 1);
                modified = true;
                proof {
                    lemma_exchange_keeps_elements(s, i as int, i + 1);
                    let t = values@;
                    assert(i + 1 < n - settled);
                    assert forall|a: int, b: int|
                        0 <= a <= b < t.len() && t.len() - settled <= b implies at_most(
                        #[trigger] t[a],
                        #[trigger] t[b],
                    ) by {
                        assert(t[b] == s[b]);
                        if a == i {
                            assert(at_most(s[i + 1], s[b]));
                        } else if a == i + 1 {
                            assert(at_most(s[i as int], s[b]));
                        } else {
                            assert(at_most(s[a], s[b]));
                        }
                    }
                    assert forall|k: int| 0 <= k <= i + 1 implies at_most(
                        #[trigger] t[k],
                        t[i + 1],
                    ) by {
                        if k < i {
                            assert(at_most(s[k], s[i as int]));
                        }
                    }
                }
            } else {
                proof {
                    assert forall|k: int| 0 <= k <= i + 1 implies at_most(
                        #[trigger] s[k],
                        s[i + 1],
                    ) by {
                        if k <= i {
                            assert(at_most(s[k], s[i as int]));
                            lemma_at_most_trans(s[k], s[i as int], s[i + 1]);
                        }
                    }
                }
            }
            i += 1;
        }
        proof {
            let s = values@;
            if !modified {
                lemma_neighbours_in_order(s, 0, n as int);
            }
            if settled < n {
                assert forall|a: int, b: int|
                    0 <= a <= b < s.len() && s.len() - (settled + 1) <= b implies at_most(
                    #[trigger] s[a],
                    #[trigger] s[b],
                ) by {
                    if b == n - settled - 1 {
                        assert(at_most(s[a], s[n - settled - 1]));
                    } else {
                        assert(back_settled(s, settled));
                    }
                }
                settled = settled + 1;
            }
        }
    }
}

} // verus!
