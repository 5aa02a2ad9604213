use barnes_hut::bond_lines::bond_lines;
use barnes_hut::ids::{bond_ends, find_by_id, index_by_id, key_of, max_body_id};
use barnes_hut::threads::worker_threads;

#[test]
fn largest_id() {
    assert_eq!(max_body_id(&vec![]), 0);
    assert_eq!(max_body_id(&vec![4, 9, 2]), 9);
}

#[test]
fn table_holds_the_last_index_of_each_id() {
    let t = index_by_id(&vec![3, 1, 3]);
    assert_eq!(t, vec![usize::MAX, 1, usize::MAX, 2]);
    assert_eq!(index_by_id(&vec![]), vec![usize::MAX]);
}

#[test]
fn find_returns_the_first_match() {
    let ids = vec![7u64, 8, 7];
    assert_eq!(find_by_id(&ids, 7), Some(0));
    assert_eq!(find_by_id(&ids, 8), Some(1));
    assert_eq!(find_by_id(&ids, 9), None);
}

#[test]
fn pair_keys_ignore_order() {
    assert_eq!(key_of(3, 9), key_of(9, 3));
    assert_eq!(key_of(1, 2), (1u128 << 64) | 2);
    assert_ne!(key_of(1, 2), key_of(2, 2));
}

#[test]
fn bond_ends_resolve_ids() {
    let ids = vec![4u64, 2, 7];
    let ends = bond_ends(&ids, &vec![(4, 7), (2, 3), (2, 50), (7, 7)]);
    assert_eq!(ends, vec![Some((0, 2)), None, None, Some((2, 2))]);
}

#[test]
fn worker_thread_count() {
    assert_eq!(worker_threads(1), 1);
    assert_eq!(worker_threads(3), 1);
    assert_eq!(worker_threads(8), 6);
}

#[test]
fn bond_lines_through_the_id_table() {
    let ids = vec![0u64, 1, 2];
    let pos = vec![(0, 0), (1, 1), (2, 2)];
    let bonds = vec![(0u64, 1u64), (2, 5), (1, 2)];
    let lines = bond_lines(&ids, &pos, &bonds, (9, 9), 10);
    assert_eq!(lines, vec![((0, 0), (1, 1)), ((1, 1), (2, 2))]);
    assert_eq!(bond_lines(&ids, &pos, &bonds, (9, 9), 1), vec![((0, 0), (1, 1))]);
    assert!(bond_lines(&ids, &pos, &bonds, (9, 9), 0).is_empty());
}

#[test]
fn bond_lines_draw_missing_ids_at_zero_in_the_table() {
    let ids = vec![0u64, 2];
    let pos = vec![(0, 0), (2, 2)];
    let lines = bond_lines(&ids, &pos, &vec![(0, 1)], (9, 9), 10);
    assert_eq!(lines, vec![((0, 0), (9, 9))]);
}

#[test]
fn bond_lines_through_the_map_skip_missing_ids() {
    let ids = vec![0u64, 100];
    let pos = vec![(0, 0), (5, 5)];
    let lines = bond_lines(&ids, &pos, &vec![(0, 100), (0, 50), (100, 100)], (9, 9), 10);
    assert_eq!(lines, vec![((0, 0), (5, 5)), ((5, 5), (5, 5))]);
}

#[test]
fn no_lines_without_bonds_or_bodies() {
    let empty: Vec<(u64, u64)> = vec![];
    assert!(bond_lines(&vec![0u64], &vec![(0, 0)], &empty, (9, 9), 5).is_empty());
    assert!(bond_lines(&vec![], &Vec::<(i32, i32)>::new(), &vec![(0, 1)], (9, 9), 5).is_empty());
}
