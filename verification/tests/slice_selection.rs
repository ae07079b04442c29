use essvi::selection::select_slice_indices;

#[test]
fn select_all_when_few() {
    assert_eq!(select_slice_indices(0), Vec::<usize>::new());
    assert_eq!(select_slice_indices(3), vec![0, 1, 2]);
    assert_eq!(select_slice_indices(8), vec![0, 1, 2, 3, 4, 5, 6, 7]);
}

#[test]
fn select_eight_evenly_spaced() {
    assert_eq!(select_slice_indices(9), vec![0, 1, 2, 3, 4, 5, 6, 7]);
    assert_eq!(select_slice_indices(20), vec![0, 2, 5, 7, 10, 12, 15, 17]);
    assert_eq!(select_slice_indices(16), vec![0, 2, 4, 6, 8, 10, 12, 14]);
}

#[test]
fn select_matches_float_spacing() {
    for n in 9usize..500 {
        let step = n as f64 / 8.0;
        let expected: Vec<usize> = (0..8).map(|i| (i as f64 * step) as usize).collect();
        assert_eq!(select_slice_indices(n), expected);
    }
}

#[test]
fn select_huge_count_does_not_overflow() {
    let n = usize::MAX;
    let idx = select_slice_indices(n);
    assert_eq!(idx.len(), 8);
    assert_eq!(idx[0], 0);
    assert_eq!(idx[7], (n / 8) * 7 + ((n % 8) * 7) / 8);
    assert!(idx.windows(2).all(|w| w[0] < w[1]));
}
