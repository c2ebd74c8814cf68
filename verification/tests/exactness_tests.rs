use bode_response::double::Double;
use bode_response::evaluation::evaluate_rounded;
use bode_response::polynomial::evaluate;
use bode_response::transfer_function::TransferFunction;

fn held(x: f64) -> Double {
    Double::from_bits(x.to_bits())
}

fn plain(d: Double) -> f64 {
    f64::from_bits(d.to_bits())
}

#[test]
fn whole_polynomials_are_evaluated_without_error() {
    let cases: Vec<(Vec<i64>, i64)> = vec![
        (vec![1], 7),
        (vec![0, 1], 7),
        (vec![1, 1], 7),
        (vec![80, 2, 5], 4),
        (vec![1, 2, 3, 4, 5, 6], 2),
        (vec![3, -1, 4, 1, -5, 9, -2, 6], 10),
        (vec![-7, 0, 0, 13], 100),
        (vec![1, 1, 1, 1, 1, 1, 1, 1, 1, 1], 30),
        (vec![9, 8, 7], 0),
        (vec![5, -5, 5, -5], -3),
    ];
    for (coefficients, w) in cases {
        let (re, im) = evaluate(&coefficients, w).unwrap();
        assert!(re.abs() < 1 << 53 && im.abs() < 1 << 53);
        let doubles: Vec<Double> = coefficients.iter().map(|c| held(*c as f64)).collect();
        let value = evaluate_rounded(&doubles, held(w as f64));
        assert_eq!(plain(value.re), re as f64);
        assert_eq!(plain(value.im), im as f64);
        assert_eq!(value.re.to_integer(), Some(re as i64));
        assert_eq!(value.im.to_integer(), Some(im as i64));
    }
}

#[test]
fn beyond_the_limit_the_last_bits_are_lost() {
    // (2^53 + 1) is no double: 2^53 + 1 * 1^1 rounds to 2^53.
    let coefficients = vec![held(9007199254740992.0), held(0.0), held(-1.0)];
    let value = evaluate_rounded(&coefficients, held(1.0));
    assert_eq!(plain(value.re), 9007199254740992.0);
    assert_eq!(
        evaluate(&vec![9007199254740992, 0, -1], 1),
        Some((9007199254740993, 0))
    );
}

#[test]
fn the_exact_and_the_rounded_response_of_a_whole_model_agree() {
    // 80 / (5 s^2 + 2 s + 80) at s = 4i is 80 / (8i) = -10i.
    let tf = TransferFunction::new(
        vec![held(80.0)],
        vec![held(80.0), held(2.0), held(5.0)],
    );
    let point = tf.exact_at(4).unwrap();
    assert_eq!((point.numerator, point.denominator), ((80, 0), (0, 8)));
    let h = tf.response_at(held(4.0)).unwrap();
    assert_eq!((plain(h.re), plain(h.im)), (0.0, -10.0));
}
