use coppa::link::float_order::{at_least, below, key_of};

#[test]
fn order_of_bit_patterns_is_the_order_of_floats() {
    let values = [
        f32::NEG_INFINITY, f32::MIN, -2.5, -1.0, -f32::MIN_POSITIVE, -1e-45, -0.0, 0.0, 1e-45,
        f32::MIN_POSITIVE, 0.6, 1.0, 2.5, f32::MAX, f32::INFINITY, f32::NAN, -f32::NAN,
    ];
    for a in values {
        for b in values {
            assert_eq!(below(a.to_bits(), b.to_bits()), a < b, "{} < {}", a, b);
            assert_eq!(at_least(a.to_bits(), b.to_bits()), a >= b, "{} >= {}", a, b);
        }
    }
    assert_eq!(key_of(f32::NAN.to_bits()), None);
    assert_eq!(key_of(0.0f32.to_bits()), key_of((-0.0f32).to_bits()));
}
