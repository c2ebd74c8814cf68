use bode_response::double::Double;

fn held(x: f64) -> Double {
    Double::from_bits(x.to_bits())
}

fn samples() -> Vec<f64> {
    vec![
        0.0,
        -0.0,
        1.0,
        -1.0,
        -5.0,
        50.0,
        0.4,
        1e-3,
        1e5,
        314.1592653589793,
        f64::MIN_POSITIVE,
        -f64::MIN_POSITIVE,
        5e-324,
        -5e-324,
        2.2250738585072009e-308,
        f64::MAX,
        f64::MIN,
        f64::EPSILON,
        f64::INFINITY,
        f64::NEG_INFINITY,
        f64::NAN,
        -f64::NAN,
        f64::from_bits(0x7FF0_0000_0000_0001),
        f64::from_bits(0xFFFF_FFFF_FFFF_FFFF),
    ]
}

#[test]
fn bits_round_trip() {
    for x in samples() {
        assert_eq!(held(x).to_bits(), x.to_bits());
    }
}

#[test]
fn zero_and_one_are_the_doubles_zero_and_one() {
    assert_eq!(Double::zero().to_bits(), 0.0f64.to_bits());
    assert_eq!(Double::one().to_bits(), 1.0f64.to_bits());
    assert_eq!(f64::from_bits(Double::one().to_bits()), 1.0);
}

#[test]
fn classification_agrees_with_the_machine() {
    for x in samples() {
        let d = held(x);
        assert_eq!(d.is_nan(), x.is_nan(), "is_nan of {:?}", x);
        assert_eq!(d.is_finite(), x.is_finite(), "is_finite of {:?}", x);
        assert_eq!(d.is_zero(), x == 0.0, "is_zero of {:?}", x);
        assert_eq!(d.is_positive(), x > 0.0, "is_positive of {:?}", x);
    }
}

#[test]
fn order_agrees_with_the_machine() {
    for x in samples() {
        for y in samples() {
            assert_eq!(held(x).lt(&held(y)), x < y, "{:?} < {:?}", x, y);
        }
    }
}

#[test]
fn the_two_zeros_are_equal_in_order() {
    assert!(!held(0.0).lt(&held(-0.0)));
    assert!(!held(-0.0).lt(&held(0.0)));
    assert!(held(-0.0).is_zero());
    assert!(!held(-0.0).is_positive());
}

#[test]
fn nothing_is_below_what_is_not_a_number() {
    let nan = held(f64::NAN);
    assert!(!nan.lt(&held(1.0)));
    assert!(!held(1.0).lt(&nan));
    assert!(!nan.lt(&nan));
    assert!(!nan.is_positive());
    assert!(!nan.is_zero());
    assert!(!nan.is_finite());
}

#[test]
fn infinities_bound_every_finite_number() {
    assert!(held(f64::MAX).lt(&held(f64::INFINITY)));
    assert!(held(f64::NEG_INFINITY).lt(&held(f64::MIN)));
    assert!(held(f64::INFINITY).is_positive());
    assert!(!held(f64::INFINITY).is_finite());
}

#[test]
fn neighbours_are_told_apart() {
    let x = 1.0f64;
    let next = f64::from_bits(x.to_bits() + 1);
    assert!(held(x).lt(&held(next)));
    assert!(held(-next).lt(&held(-x)));
    assert!(held(f64::from_bits(0x000F_FFFF_FFFF_FFFF)).lt(&held(f64::MIN_POSITIVE)));
}

#[test]
fn whole_numbers_are_read_exactly() {
    for k in [
        0i64,
        1,
        -1,
        2,
        3,
        16,
        80,
        -5,
        1000,
        (1 << 52) - 1,
        1 << 52,
        (1 << 53) - 1,
        1 << 53,
        -(1 << 53),
        (1 << 53) + 2,
        1 << 62,
        -(1 << 62),
        i64::MIN,
        0x7FFF_FFFF_FFFF_FC00,
    ] {
        assert_eq!(held(k as f64).to_integer(), Some(k), "{}", k);
    }
    assert_eq!(held(-0.0).to_integer(), Some(0));
}

#[test]
fn other_values_are_no_integers() {
    for x in [
        0.5,
        -0.5,
        0.4,
        1.5,
        1e-3,
        314.1592653589793,
        4503599627370495.5,
        5e-324,
        f64::MIN_POSITIVE,
        9223372036854775808.0,
        -9223372036854777856.0,
        1e19,
        1e300,
        f64::MAX,
        f64::INFINITY,
        f64::NEG_INFINITY,
        f64::NAN,
    ] {
        assert_eq!(held(x).to_integer(), None, "{:?}", x);
    }
}

#[test]
fn integers_agree_with_the_machine() {
    let mut bits: u64 = 0x3FE0_0000_0000_0000;
    let mut seen: u32 = 0;
    while bits < 0x4400_0000_0000_0000 {
        let x = f64::from_bits(bits);
        let expected = if x.fract() == 0.0 && x < 9223372036854775808.0 {
            Some(x as i64)
        } else {
            None
        };
        assert_eq!(held(x).to_integer(), expected, "{:?}", x);
        assert_eq!(held(-x).to_integer(), expected.map(|k| -k), "{:?}", -x);
        bits += 0x0000_3333_3333_3333;
        seen += 1;
    }
    assert!(seen > 1000);
}
