use spanning_forest::sorting::bubble;
use spanning_forest::sorting::insertion;
use spanning_forest::sorting::merge;
use spanning_forest::sorting::quick;

fn cases() -> Vec<Vec<i32>> {
    vec![vec![0, 2, 1, 4, 7, 3], vec![2, -1, 5, 2, 9], vec![0, 1, 2, 4, 3, 0]]
}

fn expected() -> Vec<Vec<i32>> {
    vec![vec![0, 1, 2, 3, 4, 7], vec![-1, 2, 2, 5, 9], vec![0, 0, 1, 2, 3, 4]]
}

fn long_cases() -> Vec<Vec<i64>> {
    vec![
        vec![0, 2, 1, 4, 7, 3],
        vec![0, 2, 1, 4, 7, 0],
        vec![2, -1, 5, 2, 9],
        vec![0, 1, 2, 4, 3, 0],
        vec![3, 7, 8, 5, 2, 1, 9, 5, 4],
    ]
}

fn long_expected() -> Vec<Vec<i64>> {
    vec![
        vec![0, 1, 2, 3, 4, 7],
        vec![0, 0, 1, 2, 4, 7],
        vec![-1, 2, 2, 5, 9],
        vec![0, 0, 1, 2, 3, 4],
        vec![1, 2, 3, 4, 5, 5, 7, 8, 9],
    ]
}

/// Inputs at the edges: nothing, one element, all equal, descending.
fn edge_cases() -> Vec<(Vec<i32>, Vec<i32>)> {
    vec![
        (vec![], vec![]),
        (vec![5], vec![5]),
        (vec![2, 1], vec![1, 2]),
        (vec![3, 3, 3], vec![3, 3, 3]),
        (vec![9, 7, 5, 3, 1, -1], vec![-1, 1, 3, 5, 7, 9]),
        (vec![i32::MAX, 0, i32::MIN], vec![i32::MIN, 0, i32::MAX]),
    ]
}

#[test]
fn bubble_sort() {
    let mut cases = cases();
    let expected = expected();
    for (case, expect) in cases.iter_mut().zip(&expected) {
        bubble::sort(case);
        assert_eq!(case, expect);
    }
}

#[test]
fn second_sort() {
    let mut cases = cases();
    let expected = expected();
    for (case, expect) in cases.iter_mut().zip(&expected) {
        bubble::second::sort(case);
        assert_eq!(case, expect);
    }
    let mut cases = self::cases();
    for (case, expect) in cases.iter_mut().zip(&expected) {
        let result = merge::second::sort(case);
        assert_eq!(&result, expect);
    }
    let mut cases = long_cases();
    let expected = long_expected();
    for (case, expect) in cases.iter_mut().zip(&expected) {
        quick::second::sort_inplace::<i64>(case);
        assert_eq!(case, expect);
    }
}

#[test]
fn sort_ptr() {
    let mut cases = cases();
    let expected = expected();
    for (case, expect) in cases.iter_mut().zip(&expected) {
        bubble::second::sort_ptr(case);
        assert_eq!(case, expect);
    }
}

#[test]
fn insertion_sort() {
    let mut cases = cases();
    let expected = expected();
    for (case, expect) in cases.iter_mut().zip(&expected) {
        insertion::sort(case);
        assert_eq!(case, expect);
    }
}

#[test]
fn sort_inplace() {
    let mut cases = cases();
    let expected = expected();
    for (case, expect) in cases.iter_mut().zip(&expected) {
        insertion::second::sort_inplace(case);
        assert_eq!(case, expect);
    }
}

#[test]
fn sort_inplace2() {
    let mut cases = cases();
    let expected = expected();
    for (case, expect) in cases.iter_mut().zip(&expected) {
        insertion::second::sort_inplace3(case);
        assert_eq!(case, expect);
    }
}

#[test]
fn sort_inplace_walks_to_the_front() {
    let mut cases = cases();
    let expected = expected();
    for (case, expect) in cases.iter_mut().zip(&expected) {
        insertion::second::sort_inplace2(case);
        assert_eq!(case, expect);
    }
}

#[test]
fn sort_inplace_ptrs() {
    let mut cases = cases();
    let expected = expected();
    for (case, expect) in cases.iter_mut().zip(&expected) {
        insertion::second::sort_inplace_ptrs(case);
        assert_eq!(case, expect);
    }
}

#[test]
fn sort_mutate() {
    let mut cases = cases();
    let expected = expected();
    for (case, expect) in cases.iter_mut().zip(&expected) {
        merge::first::sort_mutate(case);
        assert_eq!(case, expect);
    }
}

#[test]
fn sort_clone() {
    let mut cases = cases();
    let expected = expected();
    for (case, expect) in cases.iter_mut().zip(&expected) {
        let result = merge::first::sort_clone(case);
        assert_eq!(&result, expect);
    }
}

#[test]
fn quick_sort() {
    let mut cases = long_cases();
    let expected = long_expected();
    for (case, expect) in cases.iter_mut().zip(&expected) {
        quick::sort(case);
        assert_eq!(case, expect);
    }
}

#[test]
fn in_place_sorts_at_the_edges() {
    for (case, expect) in edge_cases() {
        let mut v = case.clone();
        bubble::sort(&mut v);
        assert_eq!(v, expect);
        let mut v = case.clone();
        bubble::second::sort(&mut v);
        assert_eq!(v, expect);
        let mut v = case.clone();
        bubble::second::sort_ptr(&mut v);
        assert_eq!(v, expect);
        let mut v = case.clone();
        insertion::sort(&mut v);
        assert_eq!(v, expect);
        let mut v = case.clone();
        insertion::second::sort_inplace(&mut v);
        assert_eq!(v, expect);
        let mut v = case.clone();
        insertion::second::sort_inplace2(&mut v);
        assert_eq!(v, expect);
        let mut v = case.clone();
        insertion::second::sort_inplace3(&mut v);
        assert_eq!(v, expect);
        let mut v = case.clone();
        insertion::second::sort_inplace_ptrs(&mut v);
        assert_eq!(v, expect);
        let mut v = case.clone();
        merge::first::sort_mutate(&mut v);
        assert_eq!(v, expect);
        let mut v = case.clone();
        quick::sort(&mut v);
        assert_eq!(v, expect);
        let mut v = case.clone();
        quick::second::sort_inplace(&mut v);
        assert_eq!(v, expect);
    }
}

#[test]
fn copying_sorts_at_the_edges() {
    for (case, expect) in edge_cases() {
        assert_eq!(merge::first::sort_clone(&case), expect);
        assert_eq!(merge::second::sort(&case), expect);
        // the input is left as it was
        assert_eq!(case, case.clone());
    }
}

#[test]
fn quick_sorts_many_times() {
    // the pivot is picked at random: every pick must lead to the same result
    for _ in 0..200 {
        let mut v: Vec<i64> = vec![5, -3, 9, 0, 5, 5, 1, 12, -8, 7, 3, 3];
        quick::sort(&mut v);
        assert_eq!(v, vec![-8, -3, 0, 1, 3, 3, 5, 5, 5, 7, 9, 12]);
        let mut v: Vec<i64> = vec![5, -3, 9, 0, 5, 5, 1, 12, -8, 7, 3, 3];
        quick::second::sort_inplace(&mut v);
        assert_eq!(v, vec![-8, -3, 0, 1, 3, 3, 5, 5, 5, 7, 9, 12]);
    }
}

#[test]
fn pivot_index_is_in_range() {
    for n in 1..40usize {
        for _ in 0..20 {
            assert!(quick::second::get_pivot_idx(n) < n);
        }
    }
    // a range of one index leaves no choice
    assert_eq!(quick::second::get_pivot_idx(1), 0);
}

#[test]
fn pivot_index_varies() {
    let mut seen = [false; 8];
    for _ in 0..2000 {
        seen[quick::second::get_pivot_idx(8)] = true;
    }
    assert!(seen.iter().all(|s| *s));
}

#[test]
fn merges_two_runs() {
    assert_eq!(merge::first::merge(vec![1, 4, 6], vec![2, 3, 7, 9]), vec![1, 2, 3, 4, 6, 7, 9]);
    assert_eq!(merge::second::merge(&[1, 4, 6], &[2, 3, 7, 9]), vec![1, 2, 3, 4, 6, 7, 9]);
    // one run wholly in front of the other
    assert_eq!(merge::first::merge(vec![5, 6], vec![1, 2]), vec![1, 2, 5, 6]);
    assert_eq!(merge::second::merge(&[1, 2], &[5, 6]), vec![1, 2, 5, 6]);
    // equal elements, and runs without elements
    assert_eq!(merge::first::merge(vec![2, 2], vec![2]), vec![2, 2, 2]);
    assert_eq!(merge::second::merge(&[], &[3]), vec![3]);
    assert_eq!(merge::first::merge(vec![3], vec![]), vec![3]);
    assert_eq!(merge::second::merge::<i32>(&[], &[]), vec![]);
}

#[test]
fn swap_elements_offset_exchanges() {
    let mut v = vec![1, 2, 3];
    bubble::second::swap_elements_offset(&mut v, 0, 2);
    assert_eq!(v, vec![3, 2, 1]);
    insertion::second::swap_elements_offset(&mut v, 1, 1);
    assert_eq!(v, vec![3, 2, 1]);
    insertion::second::swap_elements_offset(&mut v, 2, 1);
    assert_eq!(v, vec![3, 1, 2]);
}

#[test]
fn ends_before_compares_as_options_do() {
    assert!(merge::ends_before(&[1, 2], &[3]));
    assert!(!merge::ends_before(&[1, 3], &[3]));
    assert!(merge::ends_before::<i32>(&[], &[3]));
    assert!(!merge::ends_before::<i32>(&[3], &[]));
    assert!(!merge::ends_before::<i32>(&[], &[]));
}
