//! Quicksort around a pivot picked at random.
use crate::sorting::exchange::swap;
use crate::sorting::merge::lemma_halves_hold_all;
use crate::sorting::order::{
    at_most, equivalent, is_sorting_of, is_total_order, lemma_at_most_trans, lemma_comparisons,
    lemma_element_kept, lemma_exchange_keeps_elements, sorted,
};
use rand::Rng;
use vstd::prelude::*;

pub mod second;

verus! {

/// An index below `count`, picked at random.
///
/// Trusted: this is `Rng::gen_range` of the crate `rand`, called on the
/// generator of the thread with the range `0..count`.  It returns a value
/// of the range, whichever, and panics if the range is empty.
#[verifier::external_body]
pub(crate) fn random_index(count: usize) -> (idx: usize)
    requires
        count > 0,
    ensures
        idx < count,
{
    let mut rng = rand::thread_rng();
    rng.gen_range(0..count)
}

/// The element at `at` parts the sequence: no element in front of it
/// comes after `pivot`, none behind it comes before `pivot`, and the
/// element itself is neither.
pub open spec fn parted<T: PartialOrd>(s: Seq<T>, at: int, pivot: T) -> bool {
    &&& 0 <= at < s.len()
    &&& equivalent(s[at], pivot)
    &&& forall|k: int| 0 <= k < at ==> at_most(#[trigger] s[k], pivot)
    &&& forall|k: int| at < k < s.len() ==> at_most(pivot, #[trigger] s[k])
}

/// A parted sequence whose two parts are sorted is sorted.
pub proof fn lemma_parted_sorted<T: PartialOrd>(s: Seq<T>, at: int, pivot: T)
    requires
        is_total_order::<T>(),
        parted(s, at, pivot),
        sorted(s.subrange(0, at)),
        sorted(s.subrange(at + 1, s.len() as int)),
    ensures
        sorted(s),
{
    let front = s.subrange(0, at);
    let back = s.subrange(at + 1, s.len() as int);
    assert forall|a: int, b: int| 0 <= a <= b < s.len() implies at_most(
        #[trigger] s[a],
        #[trigger] s[b],
    ) by {
        lemma_comparisons(s[a], s[b]);
        lemma_comparisons(s[at], pivot);
        lemma_comparisons(pivot, s[at]);
        if a == b {
        } else if b < at {
            assert(at_most(front[a], front[b]));
        } else if a > at {
            assert(at_most(back[a - at - 1], back[b - at - 1]));
        } else if a == at {
            assert(at_most(pivot, s[b]));
            lemma_at_most_trans(s[at], pivot, s[b]);
        } else if b == at {
            assert(at_most(s[a], pivot));
            lemma_at_most_trans(s[a], pivot, s[at]);
        } else {
            assert(at_most(s[a], pivot));
            assert(at_most(pivot, s[b]));
            lemma_at_most_trans(s[a], pivot, s[b]);
        }
    }
}

/// Sorting the two parts of a parted sequence, each by itself, leaves it
/// parted, and with the elements it had.
pub proof fn lemma_parts_sorted<T: PartialOrd>(
    before: Seq<T>,
    at: int,
    pivot: T,
    front: Seq<T>,
    back: Seq<T>,
)
    requires
        is_total_order::<T>(),
        parted(before, at, pivot),
        is_sorting_of(front, before.subrange(0, at)),
        is_sorting_of(back, before.subrange(at + 1, before.len() as int)),
    ensures
        is_sorting_of(front + (seq![before[at]] + back), before),
{
    let middle = seq![before[at]];
    let after = front + (middle + back);
    let rest = before.subrange(at, before.len() as int);
    vstd::seq_lib::to_multiset_len(front);
    vstd::seq_lib::to_multiset_len(before.subrange(0, at));
    vstd::seq_lib::to_multiset_len(back);
    vstd::seq_lib::to_multiset_len(before.subrange(at + 1, before.len() as int));
    assert(rest.subrange(0, 1) =~= middle);
    assert(rest.subrange(1, rest.len() as int) =~= before.subrange(at + 1, before.len() as int));
    lemma_halves_hold_all(rest, 1, middle, back);
    lemma_halves_hold_all(before, at, front, middle + back);
    assert(after.len() == before.len());
    assert(after[at] == before[at]);
    assert forall|k: int| 0 <= k < at implies at_most(#[trigger] after[k], pivot) by {
        let from = lemma_element_kept(before.subrange(0, at), front, k);
        assert(before.subrange(0, at)[from] == before[from]);
        assert(after[k] == front[k]);
    }
    assert forall|k: int| at < k < after.len() implies at_most(pivot, #[trigger] after[k]) by {
        let from = lemma_element_kept(
            before.subrange(at + 1, before.len() as int),
            back,
            k - at - 1,
        );
        assert(before.subrange(at + 1, before.len() as int)[from] == before[at + 1 + from]);
        assert(after[k] == back[k - at - 1]);
    }
    assert(after.subrange(0, at) =~= front);
    assert(after.subrange(at + 1, after.len() as int) =~= back);
    lemma_parted_sorted(after, at, pivot);
}

/// Picks the pivot: the last of two elements, else one at random.
fn select_pivot<T: PartialOrd + Copy>(values: &[T]) -> (picked: (usize, T))
    requires
        values@.len() > 0,
    ensures
        picked.0 < values@.len(),
        picked.1 == values@[picked.0 as int],
        values@.len() == 2 ==> picked.0 == 1,
{
    if values.len() == 2 {
        return (1, values[1]);
    }
    let idx = random_index(values.len());
    (idx, values[idx])
}

/// While the elements are being parted: what stands in front of both the
/// pivot and place `upto` does not come after the pivot, and what stands
/// between the pivot and place `upto` does not come before it.
pub open spec fn parting<T: PartialOrd>(s: Seq<T>, at: int, pivot: T, upto: int) -> bool {
    &&& 0 <= at < s.len()
    &&& equivalent(s[at], pivot)
    &&& forall|k: int| 0 <= k < at && k < upto ==> at_most(#[trigger] s[k], pivot)
    &&& forall|k: int| at < k < upto && k < s.len() ==> at_most(pivot, #[trigger] s[k])
}

/// Sorts the slice in place.
pub fn sort<T>(values: &mut [T]) where T: Copy + PartialEq + PartialOrd
    requires
        is_total_order::<T>(),
    ensures
        is_sorting_of(final(values)@, old(values)@),
    decreases old(values)@.len(),
{
    let n = values.len();
    if n < 2 {
        proof {
            if n == 1 {
                lemma_comparisons(values@[0], values@[0]);
            }
        }
        return ;
    }
    let (mut idx, pivot) = select_pivot(values);
    proof {
        lemma_comparisons(pivot, pivot);
    }
    let mut i: usize = 0;
    while i < n
        invariant
            is_total_order::<T>(),
            values@.len() == n,
            i <= n,
            values@.to_multiset() == old(values)@.to_multiset(),
            parting(values@, idx as int, pivot, i as int),
        decreases n - i,
    {
        if i != idx {
            let v = values[i];
            let ghost s = values@;
            proof {
                lemma_comparisons(v, pivot);
                lemma_comparisons(pivot, v);
            }
            if v > pivot && i < idx {
                swap(values, i, idx);
                proof {
                    lemma_exchange_keeps_elements(s, i as int, idx as int);
                }
                idx = i;
            } else if v < pivot {
                if i > idx + 1 {
                    swap(values, idx, idx + 1);
                    let ghost t = values@;
                    swap(values, idx, i);
                    proof {
                        lemma_exchange_keeps_elements(s, idx as int, idx + 1);
                        lemma_exchange_keeps_elements(t, idx as int, i as int);
                        assert(at_most(pivot, s[idx + 1]));
                        let u = values@;
                        assert forall|k: int| 0 <= k < idx + 1 && k < i + 1 implies at_most(
                            #[trigger] u[k],
                            pivot,
                        ) by {
                            if k < idx {
                                assert(u[k] == s[k]);
                            }
                        }
                        assert forall|k: int| idx + 1 < k < i + 1 && k < u.len() implies at_most(
                            pivot,
                            #[trigger] u[k],
                        ) by {
                            if k < i {
                                assert(u[k] == s[k]);
                            }
                        }
                    }
                    idx += 1;
                } else if i == idx + 1 {
                    swap(values, idx, i);
                    proof {
                        lemma_exchange_keeps_elements(s, idx as int, i as int);
                        let u = values@;
                        assert forall|k: int| 0 <= k < i && k < i + 1 implies at_most(
                            #[trigger] u[k],
                            pivot,
                        ) by {
                            if k < idx {
                                assert(u[k] == s[k]);
                            }
                        }
                    }
                    idx = i;
                }
            } else if v == pivot {
                let mut j: usize = i;
                if i > idx {
                    proof {
                        lemma_comparisons(s[idx as int], pivot);
                        lemma_comparisons(pivot, s[idx as int]);
                    }
                    while j > idx
                        invariant
                            is_total_order::<T>(),
                            values@.len() == n,
                            idx <= j <= i < n,
                            values@.to_multiset() == old(values)@.to_multiset(),
                            equivalent(values@[j as int], pivot),
                            forall|k: int|
                                0 <= k < idx ==> at_most(#[trigger] values@[k], pivot),
                            forall|k: int|
                                idx <= k <= i ==> at_most(pivot, #[trigger] values@[k]),
                        decreases j,
                    {
                        let ghost t = values@;
                        swap(values, j, j - 1);
                        proof {
                            lemma_exchange_keeps_elements(t, j as int, j - 1);
                            let u = values@;
                            assert forall|k: int| 0 <= k < idx implies at_most(
                                #[trigger] u[k],
                                pivot,
                            ) by {
                                assert(u[k] == t[k]);
                            }
                            assert forall|k: int| idx <= k <= i implies at_most(
                                pivot,
                                #[trigger] u[k],
                            ) by {
                                if k == j {
                                    assert(at_most(pivot, t[j - 1]));
                                } else if k == j - 1 {
                                    assert(at_most(pivot, t[j as int]));
                                } else {
                                    assert(u[k] == t[k]);
                                }
                            }
                        }
                        j -= 1;
                    }
                }
            }
        }
        i += 1;
    }
    let ghost before = values@;
    proof {
        assert(parted(before, idx as int, pivot));
    }
    let (front, rest) = values.split_at_mut(idx);
    sort(front);
    let (_middle, back) = rest.split_at_mut(1);
    sort(back);
    proof {
        assert(_middle@ =~= seq![before[idx as int]]);
        assert(before.subrange(idx as int, n as int).subrange(1, n - idx) =~= before.subrange(
            idx + 1,
            n as int,
        ));
        lemma_parts_sorted(before, idx as int, pivot, front@, back@);
    }
}

} // verus!
