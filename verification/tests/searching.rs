use spanning_forest::binary_search::{first, second};

#[test]
fn binary_search_i32() {
    let data = vec![1_i32, 3, 4, 5, 7, 10, 15, 19];
    let test_cases = vec![(1, Some(0)), (3, Some(1)), (15, Some(6)), (13, None)];
    for (value, expected) in test_cases {
        let result = first::binary_search(&data, &value);
        assert_eq!(result, expected);
    }
}

#[test]
fn binary_search() {
    let data = vec![1_i32, 3, 4, 5, 7, 1, 15, 19];
    let test_cases = vec![(1, Ok(Some(0))), (3, Ok(Some(1))), (15, Ok(Some(6))), (13, Ok(None))];
    for (value, expected) in test_cases {
        let result = second::binary_search(&data, &value);
        assert_eq!(result, expected);
    }
}

#[test]
fn search_finds_every_element() {
    let data: Vec<i64> = (0..2000).map(|k| 3 * k - 1000).collect();
    for (at, value) in data.iter().enumerate() {
        assert_eq!(first::binary_search(&data, value), Some(at));
        assert_eq!(second::binary_search(&data, value), Ok(Some(at)));
    }
    for value in [-1001, -999, 0, 4998, 5000, i64::MAX, i64::MIN] {
        assert_eq!(first::binary_search(&data, &value), None);
        assert_eq!(second::binary_search(&data, &value), Ok(None));
    }
}

#[test]
fn search_in_short_slices() {
    let none: Vec<i32> = vec![];
    assert_eq!(first::binary_search(&none, &1), None);
    assert_eq!(second::binary_search(&none, &1), Ok(None));
    assert_eq!(first::binary_search(&[4], &4), Some(0));
    assert_eq!(second::binary_search(&[4], &4), Ok(Some(0)));
    assert_eq!(first::binary_search(&[4], &5), None);
    assert_eq!(second::binary_search(&[4], &3), Ok(None));
    assert_eq!(first::binary_search(&[4, 6], &6), Some(1));
    assert_eq!(second::binary_search(&[4, 6], &6), Ok(Some(1)));
}

#[test]
fn search_among_equal_elements() {
    let data = [2, 2, 2, 2, 2];
    let found = first::binary_search(&data, &2).unwrap();
    assert_eq!(data[found], 2);
    let found = second::binary_search(&data, &2).unwrap().unwrap();
    assert_eq!(data[found], 2);
}

#[test]
fn recursion_counts_places_from_offset() {
    let data = [10, 20, 30, 40, 50, 60, 70];
    assert_eq!(second::binary_recurse(&data, &70, 0), Ok(Some(6)));
    assert_eq!(second::binary_recurse(&data, &10, 100), Ok(Some(100)));
    assert_eq!(second::binary_recurse(&data, &60, 100), Ok(Some(105)));
    assert_eq!(second::binary_recurse(&data, &65, 100), Ok(None));
}
