use guksu::ieee;

#[test]
fn signs_and_order() {
    for x in [0.0f32, -0.0, 1.5, -1.5, f32::INFINITY, f32::NEG_INFINITY, f32::NAN, 1e-40] {
        assert_eq!(ieee::negate(x.to_bits()), (-x).to_bits());
        assert_eq!(ieee::abs(x.to_bits()), x.abs().to_bits());
        assert_eq!(ieee::is_positive(x.to_bits()), x > 0.0);
        for y in [0.0f32, -0.0, 1.5, -2.5, f32::INFINITY, f32::NEG_INFINITY, f32::NAN, -f32::NAN] {
            assert_eq!(
                ieee::total_key(x.to_bits()) < ieee::total_key(y.to_bits()),
                x.total_cmp(&y).is_lt(),
                "{x} {y}"
            );
        }
    }
}

#[test]
fn double_comparison() {
    let values = [0.0f64, -0.0, 0.5, -0.5, 1.0, f64::INFINITY, f64::NEG_INFINITY, f64::NAN];
    for a in values {
        for b in values {
            assert_eq!(ieee::is_less_64(a.to_bits(), b.to_bits()), a < b, "{a} {b}");
        }
    }
}

#[test]
fn integers_convert_to_nearest() {
    for n in [0i32, 1, -1, 127, -128, 16_777_215, 16_777_216, 16_777_217, 16_777_219, i32::MAX, i32::MIN]
    {
        assert_eq!(ieee::from_i32(n), (n as f32).to_bits(), "{n}");
    }
    for n in [0u32, 1, 16_777_217, 33_554_435, u32::MAX, u32::MAX - 128] {
        assert_eq!(ieee::from_u32(n), (n as f32).to_bits(), "{n}");
    }
    let mut x = 12345u32;
    for _ in 0..10_000 {
        x = x.wrapping_mul(1664525).wrapping_add(1013904223);
        assert_eq!(ieee::from_u32(x), (x as f32).to_bits(), "{x}");
        assert_eq!(ieee::from_i32(x as i32), (x as i32 as f32).to_bits());
    }
}

#[test]
fn fractions_are_exact() {
    for n in [0u64, 1, 3, (1 << 53) - 1, 1 << 53, 1 << 52, 0x0F_0F0F_0F0F_0F0F] {
        let exact = n as f64 * (1.0 / (1u64 << 53) as f64);
        assert_eq!(ieee::fraction_53(n), exact.to_bits(), "{n}");
    }
}

#[test]
fn codes_round_half_away_and_clamp() {
    for x in [
        0.0f32, 0.49, 0.5, -0.5, 1.49999, 1.5, -1.5, 2.5, 126.5, 126.49, 127.4, 128.0, -126.5, -127.9,
        1e9, -1e9, f32::INFINITY, f32::NEG_INFINITY, 1e-40, f32::MAX, 0.49999997, 8388608.0,
    ] {
        let expected = x.round().clamp(-127.0, 127.0) as i8;
        assert_eq!(ieee::round_to_code(x.to_bits()), expected, "{x}");
    }
    assert_eq!(ieee::round_to_code(f32::NAN.to_bits()), 0);
}

#[test]
fn total_order_puts_nan_outside() {
    assert!(ieee::total_key(f32::NAN.to_bits()) > ieee::total_key(f32::INFINITY.to_bits()));
    assert!(ieee::total_key((-f32::NAN).to_bits()) < ieee::total_key(f32::NEG_INFINITY.to_bits()));
}
