use conject_macro::collection::{group_by, group_positions_by_key};

#[test]
fn group_by_keeps_insertion_order_within_groups() {
    let items = vec![(1usize, "a"), (2, "b"), (1, "c"), (3, "d"), (2, "e")];
    let m = group_by(items);
    assert_eq!(m.len(), 3);
    assert_eq!(m[&1], vec![(1, "a"), (1, "c")]);
    assert_eq!(m[&2], vec![(2, "b"), (2, "e")]);
    assert_eq!(m[&3], vec![(3, "d")]);
}

#[test]
fn group_by_of_nothing_is_empty() {
    let m = group_by(Vec::<(usize, u8)>::new());
    assert!(m.is_empty());
}

#[test]
fn group_positions_by_key_partitions_in_first_occurrence_order() {
    let keys: Vec<String> = ["u16", "String", "u16", "Vec<u8>", "String", "u16"].iter().map(|s| s.to_string()).collect();
    let groups = group_positions_by_key(&keys);
    assert_eq!(groups, vec![vec![0, 2, 5], vec![1, 4], vec![3]]);
    let mut all: Vec<usize> = groups.iter().flatten().copied().collect();
    all.sort();
    assert_eq!(all, (0..keys.len()).collect::<Vec<_>>());
}
