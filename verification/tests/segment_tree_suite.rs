use competitive_tools_rust::segment_tree::SegmentTree;

#[test]
fn test_sizing_rounds_up_to_power_of_two() {
    let seg = SegmentTree::new(3, usize::MAX);
    assert_eq!(seg.n, 4);
    let seg = SegmentTree::new(4, usize::MAX);
    assert_eq!(seg.n, 4);
    let seg = SegmentTree::new(5, usize::MAX);
    assert_eq!(seg.n, 8);
    let seg = SegmentTree::new(0, usize::MAX);
    assert_eq!(seg.n, 1);
    let seg = SegmentTree::new(1, usize::MAX);
    assert_eq!(seg.n, 1);
}

#[test]
fn test_from_vec_builds_expected_tree() {
    let seg = SegmentTree::from_vec(vec![5, 3, 7, 9, 6, 4, 1, 2], usize::MAX);
    assert_eq!(seg.n, 8);
    assert_eq!(
        seg.tree,
        vec![1, 3, 1, 3, 7, 4, 1, 5, 3, 7, 9, 6, 4, 1, 2]
    );
    assert_eq!(seg.query(0, 4), 3);
    assert_eq!(seg.query(4, 8), 1);
    assert_eq!(seg.query(0, 8), 1);
}

#[test]
fn test_single_point_query_returns_leaf() {
    let seg = SegmentTree::from_vec(vec![5, 3, 7, 9, 6, 4, 1, 2], usize::MAX);
    assert_eq!(seg.query(2, 3), 7);
}

#[test]
fn test_query_agrees_with_brute_force() {
    // A fixed pseudo-random sequence, padded to n = 16 by the identity.
    let mut v: Vec<usize> = Vec::new();
    let mut state: usize = 987_654_321;
    for _ in 0..13 {
        state = (state.wrapping_mul(1_103_515_245).wrapping_add(12_345)) % 100_000;
        v.push(state);
    }
    let seg = SegmentTree::from_vec(v.clone(), usize::MAX);
    for i in 0..=seg.n {
        for j in i..=seg.n {
            let mut expected = usize::MAX;
            for k in i..j {
                let value = if k < v.len() { v[k] } else { usize::MAX };
                if value < expected {
                    expected = value;
                }
            }
            assert_eq!(seg.query(i, j), expected);
        }
    }
}

#[test]
fn test_rebuild_matches_incremental_updates() {
    let v = vec![5, 3, 7, 9, 6, 4, 1, 2];
    let built = SegmentTree::from_vec(v.clone(), usize::MAX);
    let mut updated = SegmentTree::new(v.len(), usize::MAX);
    for (i, &value) in v.iter().enumerate() {
        updated.update(i, value);
    }
    assert_eq!(built.n, updated.n);
    assert_eq!(built.tree, updated.tree);
}

#[test]
fn test_empty_range_returns_identity() {
    let seg = SegmentTree::from_vec(vec![5, 3, 7, 9, 6, 4, 1, 2], usize::MAX);
    for k in 0..=8 {
        assert_eq!(seg.query(k, k), usize::MAX);
    }
}

#[test]
fn test_range_beyond_populated_prefix_returns_identity() {
    let seg = SegmentTree::from_vec(vec![5, 3, 7], usize::MAX);
    assert_eq!(seg.n, 4);
    assert_eq!(seg.query(3, 4), usize::MAX);
    let seg = SegmentTree::from_vec(vec![5, 3, 7, 9, 6], usize::MAX);
    assert_eq!(seg.n, 8);
    assert_eq!(seg.query(5, 8), usize::MAX);
}

#[test]
fn test_update_changes_later_queries() {
    let mut seg = SegmentTree::new(8, usize::MAX);
    seg.update(0, 5);
    seg.update(1, 3);
    seg.update(2, 7);
    seg.update(3, 9);
    seg.update(4, 6);
    seg.update(5, 4);
    seg.update(6, 1);
    seg.update(7, 2);
    assert_eq!(
        seg.tree,
        vec![1, 3, 1, 3, 7, 4, 1, 5, 3, 7, 9, 6, 4, 1, 2]
    );
    seg.update(6, 100);
    assert_eq!(seg.query(4, 8), 2);
    seg.update(6, 0);
    assert_eq!(seg.query(0, 8), 0);
}

#[test]
fn test_characters_with_max_identity() {
    let char_vec: Vec<char> = vec!['b', 'c', 'a', 'd'];
    let char_seg = SegmentTree::from_vec(char_vec, char::MAX);
    assert_eq!(char_seg.query(0, 1), 'b');
    assert_eq!(char_seg.query(0, 2), 'b');
    assert_eq!(char_seg.query(1, 4), 'a');
    assert_eq!(char_seg.query(0, 4), 'a');
}

#[test]
fn test_single_element_tree() {
    let mut seg = SegmentTree::new(1, usize::MAX);
    assert_eq!(seg.n, 1);
    seg.update(0, 42);
    assert_eq!(seg.query(0, 1), 42);
    assert_eq!(seg.query(1, 1), usize::MAX);
}

#[test]
fn test_signed_values_with_max_identity() {
    let seg = SegmentTree::from_vec(vec![-3i64, 8, -10, 4], i64::MAX);
    assert_eq!(seg.query(0, 2), -3);
    assert_eq!(seg.query(1, 2), 8);
    assert_eq!(seg.query(0, 4), -10);
    assert_eq!(seg.query(3, 4), 4);
}

#[test]
fn test_repeated_updates_last_write_wins() {
    let mut seg = SegmentTree::from_vec(vec![5, 3, 7, 9], usize::MAX);
    seg.update(2, 1);
    seg.update(2, 6);
    seg.update(2, 4);
    assert_eq!(seg.query(2, 3), 4);
    assert_eq!(seg.query(0, 4), 3);
    let direct = SegmentTree::from_vec(vec![5, 3, 4, 9], usize::MAX);
    assert_eq!(seg.tree, direct.tree);
}
