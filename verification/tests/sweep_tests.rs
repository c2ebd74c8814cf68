use bode_response::double::Double;
use bode_response::error::BodeError;
use bode_response::sweep::is_ascending;
use bode_response::sweep::SweepConfig;
use bode_response::sweep::DEFAULT_END;
use bode_response::sweep::DEFAULT_POINTS;
use bode_response::sweep::DEFAULT_START;
use ndarray::Array;

fn held(x: f64) -> Double {
    Double::from_bits(x.to_bits())
}

fn column(values: &[f64]) -> Vec<Double> {
    values.iter().map(|x| held(*x)).collect()
}

fn frequency(config: &SweepConfig, i: usize) -> f64 {
    let (numerator, denominator) = config.position(i);
    10f64.powf(numerator as f64 / denominator as f64)
}

#[test]
fn the_default_sweep() {
    let config = SweepConfig::default();
    assert_eq!(config.start(), -3);
    assert_eq!(config.end(), 5);
    assert_eq!(config.points(), 1000);
    assert_eq!((DEFAULT_START, DEFAULT_END, DEFAULT_POINTS), (-3, 5, 1000));
}

#[test]
fn a_sweep_keeps_its_parameters() {
    let config = SweepConfig::new(-1, 2, 4).unwrap();
    assert_eq!((config.start(), config.end(), config.points()), (-1, 2, 4));
}

#[test]
fn a_sweep_needs_two_ends() {
    assert_eq!(SweepConfig::new(0, 3, 1).err(), Some(BodeError::InvalidParameter));
    assert_eq!(SweepConfig::new(0, 3, 0).err(), Some(BodeError::InvalidParameter));
    assert_eq!(SweepConfig::new(3, 3, 10).err(), Some(BodeError::InvalidParameter));
    assert_eq!(SweepConfig::new(4, 3, 10).err(), Some(BodeError::InvalidParameter));
    assert!(SweepConfig::new(3, 4, 2).is_ok());
}

#[test]
fn positions_of_the_default_sweep() {
    let config = SweepConfig::default();
    assert_eq!(config.position(0), (-3 * 999, 999));
    assert_eq!(config.position(1), (-3 * 999 + 8, 999));
    assert_eq!(config.position(500), (-3 * 999 + 4000, 999));
    assert_eq!(config.position(999), (5 * 999, 999));
}

#[test]
fn positions_at_the_limits_of_the_parameters() {
    let config = SweepConfig::new(i32::MIN, i32::MAX, usize::MAX).unwrap();
    let steps = (usize::MAX - 1) as i128;
    assert_eq!(config.position(0), (i32::MIN as i128 * steps, steps));
    assert_eq!(
        config.position(usize::MAX - 1),
        (i32::MAX as i128 * steps, steps)
    );
}

#[test]
fn the_sweep_has_its_length_and_its_ends() {
    let config = SweepConfig::default();
    let sweep: Vec<f64> = (0..config.points()).map(|i| frequency(&config, i)).collect();
    assert_eq!(sweep.len(), 1000);
    assert_eq!(sweep[0], 10f64.powf(-3.0));
    assert_eq!(sweep[999], 10f64.powf(5.0));
}

#[test]
fn consecutive_frequencies_have_a_constant_ratio() {
    let config = SweepConfig::default();
    let ratio = 10f64.powf(8.0 / 999.0);
    for i in 0..config.points() - 1 {
        let here = frequency(&config, i);
        let next = frequency(&config, i + 1);
        assert!(here < next);
        assert!((next / here - ratio).abs() < 1e-12 * ratio);
    }
}

#[test]
fn logarithmically_spaced_points_are_admitted() {
    let config = SweepConfig::default();
    let points: Vec<f64> = Array::logspace(10.0, -3.0, 5.0, 1000).to_vec();
    assert!(config.admits(&column(&points)));
    for (i, w) in points.iter().enumerate() {
        let expected = frequency(&config, i);
        assert!((w - expected).abs() <= 1e-12 * expected);
    }
}

#[test]
fn points_of_another_density_are_not_admitted() {
    let config = SweepConfig::default();
    let points: Vec<f64> = Array::logspace(10.0, -3.0, 5.0, 999).to_vec();
    assert!(!config.admits(&column(&points)));
    assert!(is_ascending(&column(&points)));
}

#[test]
fn points_out_of_order_are_not_admitted() {
    let config = SweepConfig::new(0, 1, 3).unwrap();
    assert!(config.admits(&column(&[1.0, 3.0, 10.0])));
    assert!(!config.admits(&column(&[1.0, 10.0, 3.0])));
    assert!(!config.admits(&column(&[1.0, 1.0, 10.0])));
    assert!(!config.admits(&column(&[3.0, 1.0, 10.0])));
}

#[test]
fn points_that_are_no_frequencies_are_not_admitted() {
    let config = SweepConfig::new(0, 1, 3).unwrap();
    assert!(!config.admits(&column(&[0.0, 3.0, 10.0])));
    assert!(!config.admits(&column(&[-1.0, 3.0, 10.0])));
    assert!(!config.admits(&column(&[1.0, f64::NAN, 10.0])));
    assert!(!config.admits(&column(&[1.0, 3.0, f64::INFINITY])));
}

#[test]
fn ascending_is_strict_and_positive() {
    assert!(is_ascending(&column(&[])));
    assert!(is_ascending(&column(&[2.5])));
    assert!(is_ascending(&column(&[5e-324, 1.0, f64::MAX])));
    assert!(!is_ascending(&column(&[0.0])));
    assert!(!is_ascending(&column(&[1.0, 2.0, 2.0])));
    assert!(!is_ascending(&column(&[f64::NAN])));
}
