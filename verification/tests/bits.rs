use kvectors::bits::encode_i32;
use kvectors::bits::eq_bits;
use kvectors::bits::negate_bits;
use kvectors::bits::round_bits;

#[test]
fn encode_agrees_with_native_conversion_on_small_integers() {
    for n in -4096i32..=4096i32 {
        assert_eq!(encode_i32(n), (n as f64).to_bits(), "n = {}", n);
    }
}

#[test]
fn encode_agrees_with_native_conversion_at_the_edges() {
    for n in [
        0,
        1,
        -1,
        2,
        -2,
        255,
        256,
        1 << 30,
        (1 << 30) + 1,
        i32::MAX,
        i32::MAX - 1,
        i32::MIN,
        i32::MIN + 1,
    ] {
        assert_eq!(encode_i32(n), (n as f64).to_bits(), "n = {}", n);
    }
}

#[test]
fn negate_agrees_with_native_negation() {
    let samples: [f64; 8] = [
        0.0,
        -0.0,
        1.0,
        -2.5,
        5.0e-324, // the smallest positive subnormal
        f64::MAX,
        f64::INFINITY,
        f64::NAN,
    ];
    for s in samples {
        assert_eq!(negate_bits(s.to_bits()), (-s).to_bits(), "s = {}", s);
    }
}

#[test]
fn equality_agrees_with_native_comparison() {
    let samples: [f64; 9] = [
        0.0,
        -0.0,
        1.0,
        -1.0,
        2.5,
        5.0e-324,
        f64::INFINITY,
        f64::NEG_INFINITY,
        f64::NAN,
    ];
    for a in samples {
        for b in samples {
            assert_eq!(
                eq_bits(a.to_bits(), b.to_bits()),
                a == b,
                "a = {}, b = {}",
                a,
                b
            );
        }
    }
}

#[test]
fn round_agrees_with_native_round_on_eighths() {
    for i in -80_000i64..=80_000i64 {
        let x = i as f64 / 8.0;
        assert_eq!(round_bits(x.to_bits()), x.round().to_bits(), "x = {}", x);
    }
}

#[test]
fn round_agrees_with_native_round_at_the_edges() {
    let samples: [f64; 16] = [
        0.0,
        -0.0,
        0.5,
        -0.5,
        0.49999999999999994, // the largest value below one half
        5.0e-324,            // the smallest positive subnormal
        1.5,
        -2.5,
        4503599627370495.5, // 2^52 - 0.5, the largest half-integer
        4503599627370496.0, // 2^52, integral from here on
        9007199254740991.0, // 2^53 - 1
        1.0e308,
        f64::MAX,
        f64::MIN,
        f64::INFINITY,
        f64::NEG_INFINITY,
    ];
    for s in samples {
        assert_eq!(round_bits(s.to_bits()), s.round().to_bits(), "s = {}", s);
    }
}

#[test]
fn round_keeps_a_not_a_number_pattern() {
    let nan = f64::NAN.to_bits();
    assert_eq!(round_bits(nan), nan);
}
