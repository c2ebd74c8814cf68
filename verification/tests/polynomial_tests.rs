use bode_response::polynomial::axis_of_power;
use bode_response::polynomial::evaluate;
use bode_response::polynomial::Axis;
use num::complex::Complex;

#[test]
fn powers_of_the_imaginary_unit_cycle() {
    let expected = [
        Axis::PositiveReal,
        Axis::PositiveImaginary,
        Axis::NegativeReal,
        Axis::NegativeImaginary,
    ];
    for j in 0..40usize {
        assert_eq!(axis_of_power(j), expected[j % 4]);
    }
    assert_eq!(axis_of_power(usize::MAX), Axis::NegativeImaginary);
}

#[test]
fn axes_agree_with_complex_multiplication() {
    let i = Complex::new(0i64, 1i64);
    let mut power = Complex::new(1i64, 0i64);
    for j in 0..16usize {
        let unit = match axis_of_power(j) {
            Axis::PositiveReal => Complex::new(1, 0),
            Axis::PositiveImaginary => Complex::new(0, 1),
            Axis::NegativeReal => Complex::new(-1, 0),
            Axis::NegativeImaginary => Complex::new(0, -1),
        };
        assert_eq!(unit, power);
        power = power * i;
    }
}

#[test]
fn a_constant_is_its_own_value() {
    for w in [0i64, 1, 7, 1000, -3] {
        assert_eq!(evaluate(&vec![1], w), Some((1, 0)));
        assert_eq!(evaluate(&vec![-42], w), Some((-42, 0)));
    }
}

#[test]
fn the_identity_is_the_imaginary_frequency() {
    for w in [0i64, 1, 7, 1000, -3] {
        assert_eq!(evaluate(&vec![0, 1], w), Some((0, w as i128)));
    }
}

#[test]
fn one_plus_s() {
    for w in [0i64, 1, 7, 1000, -3] {
        assert_eq!(evaluate(&vec![1, 1], w), Some((1, w as i128)));
    }
}

#[test]
fn no_coefficients_give_zero() {
    assert_eq!(evaluate(&vec![], 5), Some((0, 0)));
}

#[test]
fn all_zero_coefficients_give_zero() {
    assert_eq!(evaluate(&vec![0, 0, 0, 0, 0], 12345), Some((0, 0)));
}

#[test]
fn at_zero_only_the_constant_survives() {
    assert_eq!(evaluate(&vec![9, 8, 7, 6, 5], 0), Some((9, 0)));
}

#[test]
fn a_fifth_order_polynomial() {
    // 1 + 2s + 3s^2 + 4s^3 + 5s^4 + 6s^5 at s = 2i:
    // real 1 - 3*4 + 5*16 = 69, imaginary 2*2 - 4*8 + 6*32 = 164.
    assert_eq!(evaluate(&vec![1, 2, 3, 4, 5, 6], 2), Some((69, 164)));
}

#[test]
fn the_second_order_denominator_at_its_natural_frequency() {
    // 5 * (s^2 + 0.4 s + 16) at s = 4i.
    assert_eq!(evaluate(&vec![80, 2, 5], 4), Some((0, 8)));
}

#[test]
fn agrees_with_complex_arithmetic() {
    let coefficients: Vec<i64> = vec![3, -1, 4, 1, -5, 9];
    for w in [1i64, 2, 3, 10, 100] {
        let (re, im) = evaluate(&coefficients, w).unwrap();
        let s = Complex::new(0.0f64, w as f64);
        let mut reference = Complex::new(0.0f64, 0.0f64);
        for (j, c) in coefficients.iter().enumerate() {
            reference += Complex::new(*c as f64, 0.0) * s.powu(j as u32);
        }
        let scale = reference.norm();
        assert!((re as f64 - reference.re).abs() <= 1e-9 * scale);
        assert!((im as f64 - reference.im).abs() <= 1e-9 * scale);
    }
}

#[test]
fn agrees_with_the_polar_form_of_the_power() {
    let coefficients: Vec<i64> = vec![1, 1, 1, 1, 1, 1];
    for w in [1i64, 3, 10, 1000] {
        let (re, im) = evaluate(&coefficients, w).unwrap();
        let s = Complex::new(0.0f64, w as f64);
        let mut reference = Complex::new(0.0f64, 0.0f64);
        for (j, c) in coefficients.iter().enumerate() {
            reference += Complex::new(*c as f64, 0.0) * s.powc(Complex::new(j as f64, 0.0));
        }
        let scale = reference.norm();
        assert!((re as f64 - reference.re).abs() <= 1e-9 * scale);
        assert!((im as f64 - reference.im).abs() <= 1e-9 * scale);
    }
}

#[test]
fn a_power_that_cannot_be_held_gives_none() {
    let w = 1i64 << 62;
    assert_eq!(evaluate(&vec![0, 0, 0, 1], w), None);
    assert_eq!(evaluate(&vec![0, 0, 1], w), Some((-(1i128 << 124), 0)));
}

#[test]
fn a_sum_that_cannot_be_held_gives_none() {
    let w = 1i64 << 32;
    // 2^62 * w^2 = 2^126, four terms of it on the same axis leave 128 bits.
    let c = 1i64 << 62;
    assert_eq!(evaluate(&vec![0, 0, -c], w), Some((1i128 << 126, 0)));
    assert_eq!(evaluate(&vec![i64::MAX, 0, -c, 0, 0, 0, 0], 1), Some((i64::MAX as i128 + (1i128 << 62), 0)));
    assert_eq!(evaluate(&vec![0, 0, i64::MIN, 0, 0], w), None);
}

#[test]
fn the_exact_integrator_at_one_radian_per_second() {
    // H = N / D = N * conj(D) / |D|^2 with N = 1 and D = i: H = -i.
    let n = evaluate(&vec![1], 1).unwrap();
    let d = evaluate(&vec![0, 1], 1).unwrap();
    let re = n.0 * d.0 + n.1 * d.1;
    let im = n.1 * d.0 - n.0 * d.1;
    let norm = d.0 * d.0 + d.1 * d.1;
    assert_eq!((re, im, norm), (0, -1, 1));
}

#[test]
fn the_exact_low_pass_at_its_cut_off() {
    // H = (1 - i) / 2 whatever the cut-off.
    for a in [1i64, 4, 50, 314] {
        let n = evaluate(&vec![a], a).unwrap();
        let d = evaluate(&vec![a, 1], a).unwrap();
        let re = n.0 * d.0 + n.1 * d.1;
        let im = n.1 * d.0 - n.0 * d.1;
        let norm = d.0 * d.0 + d.1 * d.1;
        assert_eq!(re, -im);
        assert!(re > 0);
        assert_eq!(2 * re, norm);
    }
}

#[test]
fn the_second_order_system_peaks_at_its_natural_frequency() {
    // 16 / (s^2 + 0.4 s + 16), scaled by five to integers.
    let gain = |w: i64| {
        let n = evaluate(&vec![80], w).unwrap();
        let d = evaluate(&vec![80, 2, 5], w).unwrap();
        (n.0 * n.0 + n.1 * n.1) as f64 / (d.0 * d.0 + d.1 * d.1) as f64
    };
    assert_eq!(gain(4), 100.0);
    for w in 1..40i64 {
        if w != 4 {
            assert!(gain(w) < gain(4));
        }
    }
    assert!((10.0 * gain(4).log10() - 20.0).abs() < 1e-12);
}
