use conversai::ranking::{rank_descending, score_is_nan, score_key};

#[test]
fn rank_descending_orders_by_key() {
    assert_eq!(rank_descending(&vec![3, 9, 1, 7]), vec![1, 3, 0, 2]);
}

#[test]
fn rank_descending_keeps_ties_in_given_order() {
    assert_eq!(rank_descending(&vec![5, 8, 5, 8, 5]), vec![1, 3, 0, 2, 4]);
}

#[test]
fn rank_descending_of_nothing_is_empty() {
    assert_eq!(rank_descending(&Vec::new()), Vec::<usize>::new());
}

#[test]
fn rank_descending_of_equal_keys_is_identity() {
    assert_eq!(rank_descending(&vec![2, 2, 2]), vec![0, 1, 2]);
}

#[test]
fn score_key_orders_as_the_numbers_do() {
    let values = [
        f32::NEG_INFINITY,
        -3.5,
        -1.0e-40,
        0.0,
        1.0e-45,
        0.5,
        1.0,
        f32::MAX,
        f32::INFINITY,
    ];
    let mut i = 0;
    while i + 1 < values.len() {
        assert!(score_key(values[i].to_bits()) < score_key(values[i + 1].to_bits()));
        i += 1;
    }
    assert_eq!(score_key(0.0f32.to_bits()), score_key((-0.0f32).to_bits()));
    assert_eq!(score_key(0.0f32.to_bits()), 0x8000_0000);
    assert_eq!(score_key(1.0f32.to_bits()), 0xbf80_0000);
    assert_eq!(score_key((-1.0f32).to_bits()), 0x407f_ffff);
}

#[test]
fn score_is_nan_tells_numbers_from_the_rest() {
    assert!(score_is_nan(f32::NAN.to_bits()));
    assert!(score_is_nan(0xffc0_0001));
    assert!(!score_is_nan(f32::INFINITY.to_bits()));
    assert!(!score_is_nan(f32::NEG_INFINITY.to_bits()));
    assert!(!score_is_nan(0.0f32.to_bits()));
    assert!(!score_is_nan(1.5f32.to_bits()));
}
