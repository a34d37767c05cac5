//! The order that the sorting and searching routines rely on, and what it
//! means for a sequence to be sorted.
use std::cmp::Ordering;
use vstd::prelude::*;
use vstd::seq_lib::group_to_multiset_ensures;
use vstd::std_specs::cmp::{PartialEqSpec, PartialOrdSpec};

verus! {

/// `a` comes strictly before `b`.
pub open spec fn less<T: PartialOrd>(a: T, b: T) -> bool {
    a.partial_cmp_spec(&b) == Some(Ordering::Less)
}

/// `b` does not come strictly before `a`.
pub open spec fn at_most<T: PartialOrd>(a: T, b: T) -> bool {
    !less(b, a)
}

/// Neither value comes before the other.
pub open spec fn equivalent<T: PartialOrd>(a: T, b: T) -> bool {
    !less(a, b) && !less(b, a)
}

/// The two values compare.
pub open spec fn comparable<T: PartialOrd>(a: T, b: T) -> bool {
    a.partial_cmp_spec(&b) is Some
}

/// The comparison finds the two values equal.
pub open spec fn level<T: PartialOrd>(a: T, b: T) -> bool {
    a.partial_cmp_spec(&b) == Some(Ordering::Equal)
}

/// The comparisons of `T` behave as specified and order all values: any
/// two values compare, `a > b` says what `b < a` says, `==` holds exactly
/// of values that compare as equal, and both "before" and "not after" are
/// transitive.
pub open spec fn is_total_order<T: PartialOrd>() -> bool {
    &&& T::obeys_partial_cmp_spec()
    &&& T::obeys_eq_spec()
    &&& forall|a: T, b: T| #[trigger] comparable(a, b)
    &&& forall|a: T, b: T| #[trigger] greater(a, b) <==> less(b, a)
    &&& forall|a: T, b: T| #[trigger] same(a, b) <==> level(a, b)
    &&& forall|a: T, b: T, c: T| #[trigger] less(a, b) && #[trigger] less(b, c) ==> less(a, c)
    &&& forall|a: T, b: T, c: T|
        #[trigger] at_most(a, b) && #[trigger] at_most(b, c) ==> at_most(a, c)
}

/// What `a > b` computes.
pub open spec fn greater<T: PartialOrd>(a: T, b: T) -> bool {
    a.partial_cmp_spec(&b) == Some(Ordering::Greater)
}

/// What `a <= b` computes.
pub open spec fn not_greater<T: PartialOrd>(a: T, b: T) -> bool {
    a.partial_cmp_spec(&b) == Some(Ordering::Less) || a.partial_cmp_spec(&b) == Some(
        Ordering::Equal,
    )
}

/// What `a == b` computes.
pub open spec fn same<T: PartialOrd>(a: T, b: T) -> bool {
    a.eq_spec(&b)
}

/// No element comes strictly before an earlier one.
pub open spec fn sorted<T: PartialOrd>(s: Seq<T>) -> bool {
    forall|i: int, j: int| 0 <= i <= j < s.len() ==> at_most(#[trigger] s[i], #[trigger] s[j])
}

/// `after` holds the elements of `before`, each as often, in ascending
/// order.
pub open spec fn is_sorting_of<T: PartialOrd>(after: Seq<T>, before: Seq<T>) -> bool {
    &&& sorted(after)
    &&& after.to_multiset() == before.to_multiset()
    &&& after.len() == before.len()
}

/// The sequence with the elements at two places exchanged.
pub open spec fn exchanged<T>(s: Seq<T>, i: int, j: int) -> Seq<T> {
    s.update(i, s[j]).update(j, s[i])
}

/// The integers are ordered.
pub proof fn lemma_i32_is_total_order()
    ensures
        is_total_order::<i32>(),
{
}

/// The integers are ordered.
pub proof fn lemma_i64_is_total_order()
    ensures
        is_total_order::<i64>(),
{
}

/// How the four comparisons and `==` hang together in a total order.
pub proof fn lemma_comparisons<T: PartialOrd>(a: T, b: T)
    requires
        is_total_order::<T>(),
    ensures
        greater(a, b) <==> less(b, a),
        not_greater(a, b) <==> at_most(a, b),
        same(a, b) <==> equivalent(a, b),
        !(less(a, b) && less(b, a)),
        less(a, b) ==> at_most(a, b),
        at_most(a, b) || at_most(b, a),
        at_most(a, a),
{
    assert(comparable(a, b));
    assert(comparable(b, a));
    assert(comparable(a, a));
    assert(greater(a, b) <==> less(b, a));
    assert(greater(b, a) <==> less(a, b));
    assert(greater(a, a) <==> less(a, a));
    assert(same(a, b) <==> level(a, b));
    match a.partial_cmp_spec(&b) {
        Some(Ordering::Less) => {},
        Some(Ordering::Equal) => {},
        Some(Ordering::Greater) => {},
        None => {},
    }
}

/// "Not after" is transitive.
pub proof fn lemma_at_most_trans<T: PartialOrd>(a: T, b: T, c: T)
    requires
        is_total_order::<T>(),
        at_most(a, b),
        at_most(b, c),
    ensures
        at_most(a, c),
{
}

/// What comes before a value comes before whatever that value does not
/// come after.
pub proof fn lemma_less_at_most<T: PartialOrd>(a: T, b: T, c: T)
    requires
        is_total_order::<T>(),
        less(a, b),
        at_most(b, c),
    ensures
        less(a, c),
        at_most(a, c),
{
    lemma_comparisons(a, b);
    lemma_comparisons(a, c);
    if !less(a, c) {
        // then c is at most a, and so is b
        assert(at_most(c, a));
        lemma_at_most_trans(b, c, a);
    }
}

/// What does not come after a value comes before whatever that value
/// comes before.
pub proof fn lemma_at_most_less<T: PartialOrd>(a: T, b: T, c: T)
    requires
        is_total_order::<T>(),
        at_most(a, b),
        less(b, c),
    ensures
        less(a, c),
        at_most(a, c),
{
    lemma_comparisons(b, c);
    lemma_comparisons(a, c);
    if !less(a, c) {
        assert(at_most(c, a));
        lemma_at_most_trans(c, a, b);
    }
}

/// Exchanging two elements keeps the elements.
pub proof fn lemma_exchange_keeps_elements<T>(s: Seq<T>, i: int, j: int)
    requires
        0 <= i < s.len(),
        0 <= j < s.len(),
    ensures
        exchanged(s, i, j).to_multiset() == s.to_multiset(),
        exchanged(s, i, j).len() == s.len(),
{
    broadcast use group_to_multiset_ensures;

    let t = s.update(i, s[j]);
    assert(t.to_multiset() == s.to_multiset().insert(s[j]).remove(s[i]));
    assert(t.update(j, s[i]).to_multiset() == t.to_multiset().insert(s[i]).remove(t[j]));
    assert(t[j] == s[j]);
    assert(s.to_multiset().count(s[i]) > 0) by {
        assert(s.contains(s[i]));
    }
    assert(s.to_multiset().count(s[j]) > 0) by {
        assert(s.contains(s[j]));
    }
    assert(exchanged(s, i, j).to_multiset() =~= s.to_multiset());
}

/// A sequence whose neighbours are in order is sorted.
pub proof fn lemma_neighbours_in_order<T: PartialOrd>(s: Seq<T>, lo: int, hi: int)
    requires
        is_total_order::<T>(),
        0 <= lo <= hi <= s.len(),
        forall|k: int| lo < k < hi ==> at_most(s[k - 1], #[trigger] s[k]),
    ensures
        forall|a: int, b: int| lo <= a <= b < hi ==> at_most(#[trigger] s[a], #[trigger] s[b]),
    decreases hi - lo,
{
    if lo < hi {
        lemma_neighbours_in_order(s, lo, hi - 1);
        assert forall|a: int, b: int| lo <= a <= b < hi implies at_most(
            #[trigger] s[a],
            #[trigger] s[b],
        ) by {
            lemma_comparisons(s[a], s[b]);
            if a < b && b == hi - 1 {
                assert(at_most(s[a], s[b - 1]));
                assert(at_most(s[b - 1], s[b]));
                lemma_at_most_trans(s[a], s[b - 1], s[b]);
            }
        }
    }
}

/// Every element of a sequence is an element of any sequence with the
/// same elements.
pub proof fn lemma_element_kept<T>(before: Seq<T>, after: Seq<T>, k: int) -> (at: int)
    requires
        before.to_multiset() == after.to_multiset(),
        0 <= k < after.len(),
    ensures
        0 <= at < before.len(),
        before[at] == after[k],
{
    broadcast use group_to_multiset_ensures;

    assert(after.contains(after[k]));
    assert(after.to_multiset().count(after[k]) > 0);
    assert(before.contains(after[k]));
    choose|at: int| 0 <= at < before.len() && before[at] == after[k]
}

} // verus!
