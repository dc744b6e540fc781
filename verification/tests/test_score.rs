use fastvect::score::{bits_of_key, order_key, FAR_KEY, ZERO_KEY};

#[test]
fn keys_follow_number_order() {
    let xs = [
        f32::NEG_INFINITY,
        -f32::MAX,
        -2.5,
        -1.0,
        -f32::MIN_POSITIVE,
        0.0,
        f32::MIN_POSITIVE,
        0.5,
        1.0,
        3.0,
        f32::MAX,
        f32::INFINITY,
    ];
    for w in xs.windows(2) {
        assert!(order_key(w[0].to_bits()) < order_key(w[1].to_bits()));
    }
}

#[test]
fn zeros_share_a_key() {
    assert_eq!(order_key(0.0f32.to_bits()), ZERO_KEY);
    assert_eq!(order_key((-0.0f32).to_bits()), ZERO_KEY);
}

#[test]
fn far_key_is_max_float() {
    assert_eq!(order_key(f32::MAX.to_bits()), FAR_KEY);
}

#[test]
fn keys_round_trip() {
    for x in [-3.25f32, -1.0, 0.0, 0.75, 42.0, f32::MAX] {
        assert_eq!(f32::from_bits(bits_of_key(order_key(x.to_bits()))), x);
    }
}

#[test]
fn keys_map_back_to_exact_bits() {
    assert_eq!(bits_of_key(0x8000_0000), 0);
    assert_eq!(bits_of_key(0x7FFF_FFFF), 0x8000_0000);
    assert_eq!(bits_of_key(0xFFFF_FFFF), 0x7FFF_FFFF);
    assert_eq!(bits_of_key(0), 0xFFFF_FFFF);
}
