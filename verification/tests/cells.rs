use barnes_hut::cells::{cells_to_draw, is_tree, leaf_depth_range};

fn sample() -> (Vec<usize>, Vec<bool>) {
    // root 0 splits into 1..=4; node 2 splits into 5..=8
    let children = vec![1usize, 0, 5, 0, 0, 0, 0, 0, 0];
    let leaf = vec![false, true, false, true, true, true, true, true, true];
    (children, leaf)
}

#[test]
fn tree_shape_is_checked() {
    let (children, leaf) = sample();
    assert!(is_tree(&children, &leaf));
    let mut backwards = children.clone();
    backwards[2] = 1;
    assert!(!is_tree(&backwards, &leaf));
    let mut past_end = children.clone();
    past_end[0] = 6;
    assert!(!is_tree(&past_end, &leaf));
    assert!(!is_tree(&children, &leaf[..8].to_vec()));
    assert!(!is_tree(&vec![], &vec![]));
    assert!(is_tree(&vec![0], &vec![true]));
}

#[test]
fn leaf_depths_span_the_tree() {
    let (children, leaf) = sample();
    assert_eq!(leaf_depth_range(&children, &leaf), (1, 2));
    assert_eq!(leaf_depth_range(&vec![0], &vec![true]), (0, 0));
}

#[test]
fn cells_are_drawn_last_child_first() {
    let (children, leaf) = sample();
    assert_eq!(
        cells_to_draw(&children, &leaf, 1, 2),
        vec![(4, 1), (3, 1), (8, 2), (7, 2), (6, 2), (5, 2), (1, 1)]
    );
    assert_eq!(cells_to_draw(&children, &leaf, 0, 1), vec![(4, 1), (3, 1), (2, 1), (1, 1)]);
    assert_eq!(cells_to_draw(&children, &leaf, 2, 2), vec![(8, 2), (7, 2), (6, 2), (5, 2)]);
    assert_eq!(cells_to_draw(&children, &leaf, 0, 0), vec![(0, 0)]);
}
