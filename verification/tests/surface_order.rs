use essvi::surface::previous_fitted;

#[test]
fn previous_fitted_is_last_success_before() {
    let fits = vec![Some(1.0), None, Some(3.0), None, None];
    assert_eq!(previous_fitted(&fits, 0), None);
    assert_eq!(previous_fitted(&fits, 1), Some(0));
    assert_eq!(previous_fitted(&fits, 2), Some(0));
    assert_eq!(previous_fitted(&fits, 3), Some(2));
    assert_eq!(previous_fitted(&fits, 5), Some(2));
}

#[test]
fn previous_fitted_without_gaps_is_previous_slice() {
    let fits = vec![Some('a'), Some('b'), Some('c')];
    for i in 1..=3 {
        assert_eq!(previous_fitted(&fits, i), Some(i - 1));
    }
}

#[test]
fn previous_fitted_none_when_nothing_fitted() {
    let fits: Vec<Option<u8>> = vec![None, None];
    assert_eq!(previous_fitted(&fits, 2), None);
    assert_eq!(previous_fitted(&Vec::<Option<u8>>::new(), 4), None);
}

#[test]
fn previous_fitted_beyond_the_end() {
    let fits = vec![None, Some(7u32)];
    assert_eq!(previous_fitted(&fits, 10), Some(1));
}
