use bode_response::double::Double;
use bode_response::transfer_function::whole_coefficients;
use bode_response::transfer_function::TransferFunction;

fn held(x: f64) -> Double {
    Double::from_bits(x.to_bits())
}

fn column(values: &[f64]) -> Vec<Double> {
    values.iter().map(|x| held(*x)).collect()
}

fn plain(values: &Vec<Double>) -> Vec<f64> {
    values.iter().map(|d| f64::from_bits(d.to_bits())).collect()
}

#[test]
fn new_keeps_the_coefficients() {
    let tf = TransferFunction::new(column(&[16.0]), column(&[16.0, 8.0 * 0.05, 1.0]));
    assert_eq!(plain(tf.numerator()), vec![16.0]);
    assert_eq!(plain(tf.denominator()), vec![16.0, 0.4, 1.0]);
}

#[test]
fn lengths_may_differ() {
    let tf = TransferFunction::new(column(&[1.0, 2.0, 3.0, 4.0]), column(&[5.0]));
    assert_eq!(tf.numerator().len(), 4);
    assert_eq!(tf.denominator().len(), 1);
}

#[test]
fn default_is_the_integrator() {
    let tf = TransferFunction::default();
    assert_eq!(plain(tf.numerator()), vec![1.0]);
    assert_eq!(plain(tf.denominator()), vec![0.0, 1.0]);
}

#[test]
fn whole_coefficients_become_integers() {
    assert_eq!(
        whole_coefficients(&column(&[16.0, -2.0, 0.0, 1e6])),
        Some(vec![16, -2, 0, 1000000])
    );
    assert_eq!(whole_coefficients(&column(&[])), Some(vec![]));
    assert_eq!(whole_coefficients(&column(&[16.0, 0.4, 1.0])), None);
    assert_eq!(whole_coefficients(&column(&[f64::NAN])), None);
}

#[test]
fn the_integrator_is_exact_at_one_radian_per_second() {
    // N = 1 and D = i, so H = N * conj(D) / |D|^2 = -i: zero decibels at
    // minus ninety degrees.
    let point = TransferFunction::default().exact_at(1).unwrap();
    assert_eq!(point.numerator, (1, 0));
    assert_eq!(point.denominator, (0, 1));
    assert!(!point.is_singular());
}

#[test]
fn the_integrator_is_singular_at_zero() {
    let point = TransferFunction::default().exact_at(0).unwrap();
    assert_eq!(point.denominator, (0, 0));
    assert!(point.is_singular());
}

#[test]
fn a_model_with_whole_coefficients_is_exact() {
    // 80 / (5 s^2 + 2 s + 80) at s = 4i.
    let tf = TransferFunction::new(column(&[80.0]), column(&[80.0, 2.0, 5.0]));
    let point = tf.exact_at(4).unwrap();
    assert_eq!(point.numerator, (80, 0));
    assert_eq!(point.denominator, (0, 8));
    assert!(!point.is_singular());
}

#[test]
fn a_model_with_a_zero_on_the_axis_is_singular_there() {
    // s^2 + 9 vanishes at s = 3i.
    let tf = TransferFunction::new(column(&[1.0]), column(&[9.0, 0.0, 1.0]));
    assert!(tf.exact_at(3).unwrap().is_singular());
    assert!(!tf.exact_at(2).unwrap().is_singular());
}

#[test]
fn a_model_with_a_fraction_has_no_exact_values() {
    let tf = TransferFunction::new(column(&[16.0]), column(&[16.0, 8.0 * 0.05, 1.0]));
    assert!(tf.exact_at(4).is_none());
}

#[test]
fn exact_values_that_cannot_be_held_are_none() {
    let tf = TransferFunction::new(column(&[1.0]), column(&[0.0, 0.0, 0.0, 1.0]));
    assert!(tf.exact_at(1 << 62).is_none());
    assert!(tf.exact_at(1 << 40).is_some());
}
