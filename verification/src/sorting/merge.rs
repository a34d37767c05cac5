//! Merge sort, and what its variants share: how two sorted runs are
//! merged into one.
use crate::sorting::order::{
    at_most, is_sorting_of, is_total_order, less, lemma_at_most_trans, lemma_comparisons, sorted,
};
use vstd::multiset::group_multiset_axioms;
use vstd::prelude::*;
use vstd::seq_lib::{group_to_multiset_ensures, lemma_multiset_commutative};

pub mod first;
pub mod second;

verus! {

/// `out` is what a merge has put out after it has taken `i` elements of
/// `left` and `j` elements of `right`: those elements, in order, none of
/// them after any element still to come.
pub open spec fn merging<T: PartialOrd>(
    out: Seq<T>,
    left: Seq<T>,
    i: int,
    right: Seq<T>,
    j: int,
) -> bool {
    &&& 0 <= i <= left.len()
    &&& 0 <= j <= right.len()
    &&& out.len() == i + j
    &&& sorted(out)
    &&& out.to_multiset() == left.take(i).to_multiset().add(right.take(j).to_multiset())
    &&& forall|k: int, a: int|
        0 <= k < out.len() && i <= a < left.len() ==> at_most(#[trigger] out[k], #[trigger] left[a])
    &&& forall|k: int, b: int|
        0 <= k < out.len() && j <= b < right.len() ==> at_most(
            #[trigger] out[k],
            #[trigger] right[b],
        )
}

/// What `first.last() < second.first()` tells: the first run ends before
/// the second begins, where a run without elements ends before any run
/// that has one.
pub open spec fn run_precedes<T: PartialOrd>(first: Seq<T>, second: Seq<T>) -> bool {
    second.len() > 0 && (first.len() == 0 || less(first[first.len() - 1], second[0]))
}

/// A merge begins with nothing put out.
pub proof fn lemma_merging_start<T: PartialOrd>(left: Seq<T>, right: Seq<T>)
    ensures
        merging(Seq::<T>::empty(), left, 0, right, 0),
{
    broadcast use group_to_multiset_ensures;
    broadcast use group_multiset_axioms;

    assert(left.take(0) =~= Seq::<T>::empty());
    assert(right.take(0) =~= Seq::<T>::empty());
    assert(Seq::<T>::empty().to_multiset() =~= Seq::<T>::empty().to_multiset().add(
        Seq::<T>::empty().to_multiset(),
    ));
}

/// The merge may take the next element of the left run if the right run
/// is used up or its next element does not come before it.
pub proof fn lemma_take_left<T: PartialOrd>(
    out: Seq<T>,
    left: Seq<T>,
    i: int,
    right: Seq<T>,
    j: int,
)
    requires
        is_total_order::<T>(),
        sorted(left),
        sorted(right),
        merging(out, left, i, right, j),
        i < left.len(),
        j == right.len() || at_most(left[i], right[j]),
    ensures
        merging(out.push(left[i]), left, i + 1, right, j),
{
    broadcast use group_to_multiset_ensures;
    broadcast use group_multiset_axioms;

    let x = left[i];
    let grown = out.push(x);
    lemma_comparisons(x, x);
    assert forall|a: int, b: int| 0 <= a <= b < grown.len() implies at_most(
        #[trigger] grown[a],
        #[trigger] grown[b],
    ) by {
        if b < out.len() {
            assert(at_most(out[a], out[b]));
        } else if a < out.len() {
            assert(at_most(out[a], left[i]));
        }
    }
    assert(left.take(i + 1) =~= left.take(i).push(x));
    assert(grown.to_multiset() =~= left.take(i + 1).to_multiset().add(
        right.take(j).to_multiset(),
    ));
    assert forall|k: int, a: int| 0 <= k < grown.len() && i + 1 <= a < left.len() implies at_most(
        #[trigger] grown[k],
        #[trigger] left[a],
    ) by {
        if k < out.len() {
            assert(at_most(out[k], left[a]));
        } else {
            assert(at_most(left[i], left[a]));
        }
    }
    assert forall|k: int, b: int| 0 <= k < grown.len() && j <= b < right.len() implies at_most(
        #[trigger] grown[k],
        #[trigger] right[b],
    ) by {
        if k < out.len() {
            assert(at_most(out[k], right[b]));
        } else {
            assert(at_most(right[j], right[b]));
            lemma_at_most_trans(left[i], right[j], right[b]);
        }
    }
}

/// The merge may take the next element of the right run if the left run
/// is used up or its next element does not come before it.
pub proof fn lemma_take_right<T: PartialOrd>(
    out: Seq<T>,
    left: Seq<T>,
    i: int,
    right: Seq<T>,
    j: int,
)
    requires
        is_total_order::<T>(),
        sorted(left),
        sorted(right),
        merging(out, left, i, right, j),
        j < right.len(),
        i == left.len() || at_most(right[j], left[i]),
    ensures
        merging(out.push(right[j]), left, i, right, j + 1),
{
    broadcast use group_to_multiset_ensures;
    broadcast use group_multiset_axioms;

    let x = right[j];
    let grown = out.push(x);
    lemma_comparisons(x, x);
    assert forall|a: int, b: int| 0 <= a <= b < grown.len() implies at_most(
        #[trigger] grown[a],
        #[trigger] grown[b],
    ) by {
        if b < out.len() {
            assert(at_most(out[a], out[b]));
        } else if a < out.len() {
            assert(at_most(out[a], right[j]));
        }
    }
    assert(right.take(j + 1) =~= right.take(j).push(x));
    assert(grown.to_multiset() =~= left.take(i).to_multiset().add(
        right.take(j + 1).to_multiset(),
    ));
    assert forall|k: int, b: int| 0 <= k < grown.len() && j + 1 <= b < right.len() implies at_most(
        #[trigger] grown[k],
        #[trigger] right[b],
    ) by {
        if k < out.len() {
            assert(at_most(out[k], right[b]));
        } else {
            assert(at_most(right[j], right[b]));
        }
    }
    assert forall|k: int, a: int| 0 <= k < grown.len() && i <= a < left.len() implies at_most(
        #[trigger] grown[k],
        #[trigger] left[a],
    ) by {
        if k < out.len() {
            assert(at_most(out[k], left[a]));
        } else {
            assert(at_most(left[i], left[a]));
            lemma_at_most_trans(right[j], left[i], left[a]);
        }
    }
}

/// When both runs are used up, the merge has sorted them.
pub proof fn lemma_merging_done<T: PartialOrd>(out: Seq<T>, left: Seq<T>, right: Seq<T>)
    requires
        merging(out, left, left.len() as int, right, right.len() as int),
    ensures
        is_sorting_of(out, left + right),
{
    assert(left.take(left.len() as int) =~= left);
    assert(right.take(right.len() as int) =~= right);
    lemma_multiset_commutative(left, right);
}

/// A run that ends before another begins can simply be followed by it.
pub proof fn lemma_runs_in_a_row<T: PartialOrd>(first: Seq<T>, second: Seq<T>)
    requires
        is_total_order::<T>(),
        sorted(first),
        sorted(second),
        run_precedes(first, second),
    ensures
        is_sorting_of(first + second, first + second),
        is_sorting_of(first + second, second + first),
{
    let all = first + second;
    assert forall|a: int, b: int| 0 <= a <= b < all.len() implies at_most(
        #[trigger] all[a],
        #[trigger] all[b],
    ) by {
        if b < first.len() {
            assert(at_most(first[a], first[b]));
        } else if a >= first.len() {
            assert(at_most(second[a - first.len()], second[b - first.len()]));
        } else {
            let end = first[first.len() - 1];
            let start = second[0];
            assert(at_most(first[a], end));
            assert(at_most(start, second[b - first.len()]));
            lemma_comparisons(end, start);
            lemma_at_most_trans(first[a], end, start);
            lemma_at_most_trans(first[a], start, second[b - first.len()]);
        }
    }
    vstd::seq_lib::lemma_seq_union_to_multiset_commutative(first, second);
}

/// The two halves of a sequence hold its elements.
pub proof fn lemma_halves_hold_all<T>(whole: Seq<T>, mid: int, front: Seq<T>, back: Seq<T>)
    requires
        0 <= mid <= whole.len(),
        front.to_multiset() == whole.subrange(0, mid).to_multiset(),
        back.to_multiset() == whole.subrange(mid, whole.len() as int).to_multiset(),
    ensures
        (front + back).to_multiset() == whole.to_multiset(),
{
    lemma_multiset_commutative(front, back);
    lemma_multiset_commutative(whole.subrange(0, mid), whole.subrange(mid, whole.len() as int));
    assert(whole.subrange(0, mid) + whole.subrange(mid, whole.len() as int) =~= whole);
}

/// Tells whether the first run ends before the second begins, as
/// `first.last() < second.first()` does.
pub fn ends_before<T: PartialOrd>(first: &[T], second: &[T]) -> (r: bool)
    requires
        is_total_order::<T>(),
    ensures
        r == run_precedes(first@, second@),
{
    if second.len() == 0 {
        false
    } else if first.len() == 0 {
        true
    } else {
        first[first.len() - 1] < second[0]
    }
}

/// Appends the elements of `source` from place `from` on.
pub fn append_rest<T: Copy>(out: &mut Vec<T>, source: &[T], from: usize)
    requires
        from <= source@.len(),
    ensures
        final(out)@ == old(out)@ + source@.subrange(from as int, source@.len() as int),
{
    let mut k: usize = from;
    while k < source.len()
        invariant
            from <= k <= source@.len(),
            out@ == old(out)@ + source@.subrange(from as int, k as int),
        decreases source@.len() - k,
    {
        out.push(source[k]);
        k += 1;
        proof {
            assert(out@ =~= old(out)@ + source@.subrange(from as int, k as int));
        }
    }
    proof {
        assert(out@ =~= old(out)@ + source@.subrange(from as int, source@.len() as int));
    }
}

} // verus!
