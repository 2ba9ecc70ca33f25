use visible_entities::OrderKey;

fn key(value: f32) -> OrderKey {
    OrderKey::from_bits(value.to_bits())
}

#[test]
fn keys_rank_as_their_values_do() {
    let values = [f32::NEG_INFINITY, -7.25, -1.0e-40, 0.0, 1.0e-40, 0.1, 1.0, 2.0, 3.0e38, f32::INFINITY];
    for (i, a) in values.iter().enumerate() {
        for (j, b) in values.iter().enumerate() {
            assert_eq!(key(*a).before(&key(*b)), i < j);
            assert_eq!(key(*a).at_or_before(&key(*b)), i <= j);
        }
    }
}

#[test]
fn rank_values_are_exact() {
    assert_eq!(OrderKey::zero().rank_value(), 0);
    assert_eq!(OrderKey::zero().to_bits(), 0);
    assert_eq!(key(1.0).rank_value(), 0x3f80_0000);
    assert_eq!(key(-1.0).rank_value(), -0x3f80_0000);
    assert_eq!(key(f32::INFINITY).rank_value(), 0x7f80_0000);
    assert_eq!(key(f32::NEG_INFINITY).rank_value(), -0x7f80_0000);
    assert_eq!(key(f32::NAN).rank_value(), 0x8000_0000);
    assert_eq!(OrderKey::from_bits(0xffff_ffff).rank_value(), 0x8000_0000);
    assert_eq!(OrderKey::from_bits(0x7f80_0001).rank_value(), 0x8000_0000);
}

#[test]
fn both_zeros_rank_alike() {
    assert_eq!(key(-0.0).rank_value(), 0);
    assert!(key(-0.0).at_or_before(&key(0.0)));
    assert!(key(0.0).at_or_before(&key(-0.0)));
    assert!(!key(0.0).before(&key(-0.0)));
    assert_ne!(key(-0.0), key(0.0));
}

#[test]
fn undefined_keys_rank_last_and_alike() {
    let undefined = key(f32::NAN);
    let other = OrderKey::from_bits(0xffc0_0001);
    assert!(undefined.is_undefined());
    assert!(other.is_undefined());
    assert!(!key(f32::INFINITY).is_undefined());
    assert!(!key(f32::NEG_INFINITY).is_undefined());
    assert!(!key(0.0).is_undefined());
    assert!(key(f32::INFINITY).before(&undefined));
    assert!(key(f32::NEG_INFINITY).before(&other));
    assert!(undefined.at_or_before(&other));
    assert!(other.at_or_before(&undefined));
    assert!(!undefined.before(&other));
}

#[test]
fn from_bits_keeps_the_pattern() {
    assert_eq!(OrderKey::from_bits(0x4049_0fdb).to_bits(), 0x4049_0fdb);
    assert_eq!(f32::from_bits(key(2.5).to_bits()), 2.5);
}
