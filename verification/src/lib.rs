//! Frequency response of linear time-invariant systems given as a ratio of two
//! polynomials in the Laplace variable.
//!
//! A model is a `TransferFunction`, built directly from its coefficients or by
//! a filter such as `LowPassFilter`. Its response at the points of a
//! logarithmic sweep is computed in double-precision arithmetic: numbers are
//! held by their bit patterns (`double`), products, sums and quotients are
//! rounded to the nearest double (`rounding`, `arithmetic`), and numerator and
//! denominator are evaluated on the imaginary axis and divided
//! (`evaluation`, `transfer_function`, `response`). What the arithmetic gives
//! is stated against exact integers: `polynomial` holds the exact value of a
//! polynomial with whole coefficients, and `exactness` shows where the
//! rounded value is that value.
//!
//! Powers of ten, logarithms and arc tangents are not computed here. The
//! points of a sweep come from outside and are checked (`sweep`); magnitudes
//! in decibels and phases in degrees come from outside and are checked before
//! they become `BodeData` (`response`).
pub mod arithmetic;
pub mod double;
pub mod error;
pub mod evaluation;
pub mod exactness;
pub mod filters;
pub mod polynomial;
pub mod response;
pub mod rounding;
pub mod sweep;
pub mod transfer_function;
