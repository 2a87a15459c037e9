use komando::rank::nearest;

#[test]
fn nearest_orders_by_key_then_position() {
    let keys = vec![5, 1, 3, 1, 9];
    assert_eq!(nearest(&keys, 3), vec![1, 3, 2]);
    assert_eq!(nearest(&keys, 10), vec![1, 3, 2, 0, 4]);
    assert_eq!(nearest(&keys, 0), Vec::<usize>::new());
    assert_eq!(nearest(&Vec::new(), 4), Vec::<usize>::new());
}

#[test]
fn nearest_self_match_comes_first() {
    let keys = vec![0.5f32.to_bits(), 0.25f32.to_bits(), 0.0f32.to_bits()];
    assert_eq!(nearest(&keys, 1), vec![2]);
}
