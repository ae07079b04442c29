use std::collections::BTreeMap;
use essvi::grouping::{group_rows_by_key, RowGroup};

fn as_pairs(groups: &[RowGroup]) -> Vec<(u32, Vec<usize>)> {
    groups.iter().map(|g| (g.key, g.rows.clone())).collect()
}

#[test]
fn group_rows_by_key_sorts_keys_and_keeps_file_order() {
    let keys = vec![30u32, 7, 30, 91, 7, 30];
    let groups = group_rows_by_key(&keys);
    assert_eq!(
        as_pairs(&groups),
        vec![(7, vec![1, 4]), (30, vec![0, 2, 5]), (91, vec![3])]
    );
}

#[test]
fn group_rows_by_key_empty_input() {
    assert!(group_rows_by_key(&Vec::new()).is_empty());
}

#[test]
fn group_rows_by_key_single_key() {
    let groups = group_rows_by_key(&vec![5u32, 5, 5]);
    assert_eq!(as_pairs(&groups), vec![(5, vec![0, 1, 2])]);
}

#[test]
fn group_rows_by_key_matches_btreemap() {
    let keys: Vec<u32> = (0..200u32).map(|i| (i * 37 + 11) % 23).collect();
    let mut expected: BTreeMap<u32, Vec<usize>> = BTreeMap::new();
    for (i, k) in keys.iter().enumerate() {
        expected.entry(*k).or_default().push(i);
    }
    let expected: Vec<(u32, Vec<usize>)> = expected.into_iter().collect();
    assert_eq!(as_pairs(&group_rows_by_key(&keys)), expected);
}
