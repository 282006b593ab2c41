use bd_suffix::search::binary_search_range_by;

#[test]
fn test_search() {
    let x = [1, 3, 5, 5, 6, 7, 8, 10, 12, 12, 12];
    assert_eq!(binary_search_range_by(&x, |x: &i32| 1.cmp(x)), Ok((0, 1)));
    assert_eq!(binary_search_range_by(&x, |x: &i32| 2.cmp(x)), Err(1));
    assert_eq!(binary_search_range_by(&x, |x: &i32| 3.cmp(x)), Ok((1, 2)));
    assert_eq!(binary_search_range_by(&x, |x: &i32| 5.cmp(x)), Ok((2, 4)));
    assert_eq!(binary_search_range_by(&x, |x: &i32| 10.cmp(x)), Ok((7, 8)));
    assert_eq!(binary_search_range_by(&x, |x: &i32| 11.cmp(x)), Err(8));
    assert_eq!(binary_search_range_by(&x, |x: &i32| 12.cmp(x)), Ok((8, 11)));
}
