use oxidarb::double::Double;

fn d(x: f64) -> Double {
    Double::from_bits(x.to_bits())
}

fn same(a: Double, b: f64) -> bool {
    if b.is_nan() {
        a.is_nan()
    } else {
        a.to_bits() == b.to_bits()
    }
}

fn samples() -> Vec<f64> {
    let mut v = vec![
        0.0,
        -0.0,
        1.0,
        -1.0,
        0.1,
        0.2,
        0.3,
        1e-12,
        1e-300,
        -1e-300,
        5e-324,
        -5e-324,
        2.2250738585072014e-308,
        2.225073858507201e-308,
        1.7976931348623157e308,
        -1.7976931348623157e308,
        f64::INFINITY,
        f64::NEG_INFINITY,
        f64::NAN,
        9007199254740993.0,
        4503599627370496.5,
        100.0,
        0.00075,
        0.99925,
        3.0,
        7.0,
        1.5,
        1e22,
        1e23,
    ];
    let mut state: u64 = 0x9e37_79b9_7f4a_7c15;
    for _ in 0..60 {
        state ^= state << 13;
        state ^= state >> 7;
        state ^= state << 17;
        v.push(f64::from_bits(state));
    }
    for _ in 0..40 {
        state ^= state << 13;
        state ^= state >> 7;
        state ^= state << 17;
        // Numbers whose exponents are close to each other.
        v.push(f64::from_bits((state & 0x800f_ffff_ffff_ffff) | ((1000 + state % 60) << 52)));
    }
    v
}

#[test]
fn sums_are_those_of_the_machine() {
    let v = samples();
    for &a in &v {
        for &b in &v {
            assert!(same(d(a).plus(d(b)), a + b), "{:?} + {:?}", a, b);
            assert!(same(d(a).minus(d(b)), a - b), "{:?} - {:?}", a, b);
        }
    }
}

#[test]
fn products_are_those_of_the_machine() {
    let v = samples();
    for &a in &v {
        for &b in &v {
            assert!(same(d(a).times(d(b)), a * b), "{:?} * {:?}", a, b);
        }
    }
}

#[test]
fn quotients_are_those_of_the_machine() {
    let v = samples();
    for &a in &v {
        for &b in &v {
            assert!(same(d(a).over(d(b)), a / b), "{:?} / {:?}", a, b);
        }
    }
}

#[test]
fn comparisons_are_those_of_the_machine() {
    let v = samples();
    for &a in &v {
        for &b in &v {
            assert_eq!(d(a).lt(d(b)), a < b);
            assert_eq!(d(a).le(d(b)), a <= b);
            assert_eq!(d(a).gt(d(b)), a > b);
            assert_eq!(d(a).ge(d(b)), a >= b);
        }
    }
}

#[test]
fn least_and_greatest_pass_over_nan() {
    assert!(same(d(1.0).min(d(2.0)), 1.0));
    assert!(same(d(2.0).min(d(1.0)), 1.0));
    assert!(same(d(f64::NAN).min(d(1.0)), 1.0));
    assert!(same(d(1.0).min(d(f64::NAN)), 1.0));
    assert!(same(d(1.0).max(d(2.0)), 2.0));
    assert!(same(d(f64::NAN).max(d(1.0)), 1.0));
    assert!(same(d(1.0).max(d(f64::NAN)), 1.0));
}

#[test]
fn whole_numbers_become_the_nearest() {
    for n in [
        0u64,
        1,
        2,
        3,
        10,
        1000,
        1 << 52,
        (1 << 53) - 1,
        (1 << 53) + 1,
        (1 << 53) + 3,
        u64::MAX,
        u64::MAX - 1024,
        u64::MAX - 1023,
        0x8000_0000_0000_0400,
    ] {
        assert!(same(Double::from_u64(n), n as f64), "{}", n);
    }
}

#[test]
fn whole_parts_are_those_of_a_cast() {
    for &a in &samples() {
        assert_eq!(d(a).whole(), a as u64, "{:?}", a);
    }
    assert_eq!(d(360.8).whole(), 360);
    assert_eq!(d(0.999).whole(), 0);
    assert_eq!(d(18446744073709549568.0).whole(), 18446744073709549568);
    assert_eq!(d(18446744073709551616.0).whole(), u64::MAX);
}

#[test]
fn kinds_of_numbers_are_told_apart() {
    assert!(d(0.0).is_zero() && d(-0.0).is_zero() && !d(5e-324).is_zero());
    assert!(d(1.0).is_finite() && !d(f64::INFINITY).is_finite() && !d(f64::NAN).is_finite());
    assert!(d(f64::NEG_INFINITY).is_infinite() && !d(f64::NAN).is_infinite());
    assert!(d(f64::NAN).is_nan() && !d(1.0).is_nan());
    assert!(same(d(1.5).neg(), -1.5));
    assert!(same(Double::one_value(), 1.0));
    assert!(same(Double::zero_value(), 0.0));
    assert!(same(Double::infinity_value(), f64::INFINITY));
    assert!(Double::nan_value().is_nan());
}

#[test]
fn adding_keeps_the_order() {
    let v = samples();
    for &w in &[-0.1, 0.0, 1e-9, 12.5] {
        for &a in &v {
            for &b in &v {
                if d(a).le(d(b)) {
                    assert!(d(a).plus(d(w)).le(d(b).plus(d(w))), "{:?} {:?} {:?}", a, b, w);
                }
            }
        }
    }
}

#[test]
fn numbers_are_rounded_to_whole_ones() {
    for x in [
        0.0, 0.25, 0.49999999999999994, 0.5, 0.75, 1.0, 1.5, 2.5, 3.49, 1e9, 123456789.5,
        4503599627370495.5, 9007199254740993.0, 1e18, 5e-324, 1e-300,
    ] {
        assert_eq!(d(x).rounded(), x.round() as u64);
    }
    for x in [-0.0, -0.5, -3.0, f64::NEG_INFINITY, f64::NAN] {
        assert_eq!(d(x).rounded(), 0);
    }
    for x in [1e30, f64::MAX, f64::INFINITY] {
        assert_eq!(d(x).rounded(), u64::MAX);
    }
}
