//! The model: a ratio of two polynomials in the Laplace variable `s`.
use crate::arithmetic::lemma_product_one;
use crate::arithmetic::lemma_product_zero;
use crate::arithmetic::lemma_quotient_one;
use crate::arithmetic::lemma_total_zero;
use crate::arithmetic::product;
use crate::arithmetic::signed;
use crate::arithmetic::total;
use crate::double::lemma_one_scaled;
use crate::double::lemma_zero_one_whole;
use crate::double::Double;
use crate::double::MINUS_ONE_BITS;
use crate::double::ONE_BITS;
use crate::double::ZERO_BITS;
use crate::error::BodeError;
use crate::evaluation::complex_quotient;
use crate::evaluation::divide;
use crate::evaluation::evaluate_rounded;
use crate::evaluation::lemma_rounded_constant;
use crate::evaluation::lemma_rounded_linear;
use crate::evaluation::rounded_polynomial_at;
use crate::evaluation::Complex;
use crate::polynomial::evaluate;
use crate::polynomial::evaluation_fits;
use crate::polynomial::integers;
use crate::polynomial::lemma_constant;
use crate::polynomial::lemma_linear;
use crate::polynomial::norm_squared;
use crate::polynomial::polynomial_at;
use crate::polynomial::quotient_numerator;
use crate::polynomial::Gaussian;
use vstd::prelude::*;

verus! {

/// What a transfer function is: its two coefficient sequences, each in
/// ascending powers of `s` (index 0 is the constant term).
pub struct Coefficients {
    pub numerator: Seq<Double>,
    pub denominator: Seq<Double>,
}

/// A transfer function `H(s) = N(s) / D(s)`. It owns its coefficients and
/// never changes after construction.
#[derive(Debug)]
pub struct TransferFunction {
    numerator: Vec<Double>,
    denominator: Vec<Double>,
}

impl View for TransferFunction {
    type V = Coefficients;

    closed spec fn view(&self) -> Coefficients {
        Coefficients { numerator: self.numerator@, denominator: self.denominator@ }
    }
}

/// The coefficients of the pure integrator `H(s) = 1 / s`.
pub open spec fn integrator() -> Coefficients {
    Coefficients {
        numerator: seq![Double { bits: ONE_BITS }],
        denominator: seq![Double { bits: ZERO_BITS }, Double { bits: ONE_BITS }],
    }
}

/// Every coefficient is a whole number that 64 bits can hold.
pub open spec fn all_whole(coefficients: Seq<Double>) -> bool {
    forall|j: int| 0 <= j < coefficients.len() ==> (#[trigger] coefficients[j]).whole()
}

/// The coefficients as the whole numbers they are.
pub open spec fn whole_values(coefficients: Seq<Double>) -> Seq<int> {
    coefficients.map_values(|c: Double| c.whole_value())
}

/// The exact values of numerator and denominator at one point `i * w` of the
/// imaginary axis, each as real and imaginary part. The response there is
/// their quotient.
#[derive(Clone, Copy, Debug)]
pub struct ExactPoint {
    pub numerator: (i128, i128),
    pub denominator: (i128, i128),
}

impl ExactPoint {
    /// The numerator's value.
    pub open spec fn spec_numerator(self) -> Gaussian {
        Gaussian { re: self.numerator.0 as int, im: self.numerator.1 as int }
    }

    /// The denominator's value.
    pub open spec fn spec_denominator(self) -> Gaussian {
        Gaussian { re: self.denominator.0 as int, im: self.denominator.1 as int }
    }

    /// Whether the denominator is zero, so that the response is singular at
    /// the point.
    pub fn is_singular(&self) -> (r: bool)
        ensures
            r == (norm_squared(self.spec_denominator()) == 0),
    {
        proof {
            let d = self.spec_denominator();
            assert(d.re * d.re >= 0 && d.im * d.im >= 0 && (d.re * d.re == 0 <==> d.re == 0) && (
            d.im * d.im == 0 <==> d.im == 0)) by (nonlinear_arith);
        }
        self.denominator.0 == 0 && self.denominator.1 == 0
    }
}

/// The coefficients as integers, where every one of them is a whole number
/// that 64 bits can hold; `None` if one is not.
pub fn whole_coefficients(coefficients: &Vec<Double>) -> (r: Option<Vec<i64>>)
    ensures
        r is Some <==> all_whole(coefficients@),
        r is Some ==> integers(r->Some_0@) == whole_values(coefficients@),
{
    let mut out: Vec<i64> = Vec::with_capacity(coefficients.len());
    let mut j: usize = 0;
    while j < coefficients.len()
        invariant
            j <= coefficients.len(),
            out@.len() == j,
            forall|k: int| 0 <= k < j ==> (#[trigger] coefficients@[k]).whole(),
            forall|k: int| 0 <= k < j ==> out@[k] as int == (#[trigger] coefficients@[k]).whole_value(),
        decreases coefficients.len() - j,
    {
        match coefficients[j].to_integer() {
            Some(k) => {
                out.push(k);
            },
            None => {
                return None;
            },
        }
        j += 1;
    }
    assert(integers(out@) =~= whole_values(coefficients@));
    Some(out)
}

/// The response `N(i * w) / D(i * w)` of the model with the given
/// coefficients, in double-precision arithmetic.
#[verifier::opaque]
pub open spec fn response(c: Coefficients, w: Double) -> Complex {
    complex_quotient(
        rounded_polynomial_at(c.numerator, w),
        rounded_polynomial_at(c.denominator, w),
    )
}

/// The model has no response at `i * w`: its denominator is zero there, or
/// the quotient is not a finite number.
#[verifier::opaque]
pub open spec fn singular_at(c: Coefficients, w: Double) -> bool {
    rounded_polynomial_at(c.denominator, w).vanishes() || !response(c, w).finite()
}

impl TransferFunction {
    /// The response at the angular frequency `w`, or `SingularResponse`
    /// where the model has none.
    pub fn response_at(&self, w: Double) -> (r: Result<Complex, BodeError>)
        ensures
            r is Err <==> singular_at(self@, w),
            r is Err ==> r->Err_0 == BodeError::SingularResponse,
            r is Ok ==> r->Ok_0 == response(self@, w),
    {
        proof {
            reveal(response);
            reveal(singular_at);
        }
        let n: Complex = evaluate_rounded(&self.numerator, w);
        let d: Complex = evaluate_rounded(&self.denominator, w);
        if d.is_zero() {
            return Err(BodeError::SingularResponse);
        }
        let h: Complex = divide(&n, &d);
        if h.is_finite() {
            Ok(h)
        } else {
            Err(BodeError::SingularResponse)
        }
    }

    /// The exact values at `i * w` exist: every coefficient is a whole number
    /// and no step of either evaluation leaves the range of 128 bits.
    pub open spec fn exact_at_defined(&self, w: int) -> bool {
        &&& all_whole(self@.numerator)
        &&& all_whole(self@.denominator)
        &&& evaluation_fits(whole_values(self@.numerator), w)
        &&& evaluation_fits(whole_values(self@.denominator), w)
    }

    /// The exact values of numerator and denominator at `i * w`, for a model
    /// whose coefficients are whole numbers; `None` where `exact_at_defined`
    /// does not hold. A response computed in the machine's arithmetic can be
    /// held against them.
    pub fn exact_at(&self, w: i64) -> (r: Option<ExactPoint>)
        ensures
            r is Some <==> self.exact_at_defined(w as int),
            r is Some ==> {
                &&& r->Some_0.spec_numerator() == polynomial_at(
                    whole_values(self@.numerator),
                    w as int,
                )
                &&& r->Some_0.spec_denominator() == polynomial_at(
                    whole_values(self@.denominator),
                    w as int,
                )
            },
    {
        let numerator: Vec<i64> = match whole_coefficients(&self.numerator) {
            Some(c) => c,
            None => {
                return None;
            },
        };
        let denominator: Vec<i64> = match whole_coefficients(&self.denominator) {
            Some(c) => c,
            None => {
                return None;
            },
        };
        let n: (i128, i128) = match evaluate(&numerator, w) {
            Some(n) => n,
            None => {
                return None;
            },
        };
        let d: (i128, i128) = match evaluate(&denominator, w) {
            Some(d) => d,
            None => {
                return None;
            },
        };
        Some(ExactPoint { numerator: n, denominator: d })
    }

    /// The transfer function with the given coefficients, in ascending powers
    /// of `s`. The two sequences may differ in length.
    pub fn new(numerator: Vec<Double>, denominator: Vec<Double>) -> (r: TransferFunction)
        ensures
            r@.numerator == numerator@,
            r@.denominator == denominator@,
    {
        TransferFunction { numerator, denominator }
    }

    /// The numerator's coefficients.
    pub fn numerator(&self) -> (r: &Vec<Double>)
        ensures
            r@ == self@.numerator,
    {
        &self.numerator
    }

    /// The denominator's coefficients.
    pub fn denominator(&self) -> (r: &Vec<Double>)
        ensures
            r@ == self@.denominator,
    {
        &self.denominator
    }
}

impl Default for TransferFunction {
    /// The pure integrator `H(s) = 1 / s`.
    fn default() -> (r: TransferFunction)
        ensures
            r@ == integrator(),
    {
        let r = TransferFunction {
            numerator: vec![Double::one()],
            denominator: vec![Double::zero(), Double::one()],
        };
        proof {
            assert(r@.numerator =~= integrator().numerator);
            assert(r@.denominator =~= integrator().denominator);
        }
        r
    }
}

/// The integrator's coefficients are the whole numbers `[1]` over `[0, 1]`.
pub proof fn lemma_integrator_whole()
    ensures
        all_whole(integrator().numerator),
        all_whole(integrator().denominator),
        whole_values(integrator().numerator) == seq![1int],
        whole_values(integrator().denominator) == seq![0int, 1int],
{
    lemma_zero_one_whole();
    assert(whole_values(integrator().numerator) =~= seq![1int]);
    assert(whole_values(integrator().denominator) =~= seq![0int, 1int]);
}

/// The pure integrator at `i * w` is `-i * w / w^2`, that is `-i / w`: for
/// `w > 0` it points along the negative imaginary axis, a phase of minus
/// ninety degrees, and at `w == 1` its modulus is one, zero decibels.
pub proof fn lemma_integrator_response(w: int)
    ensures
        quotient_numerator(
            polynomial_at(whole_values(integrator().numerator), w),
            polynomial_at(whole_values(integrator().denominator), w),
        ) == (Gaussian { re: 0, im: -w }),
        norm_squared(polynomial_at(whole_values(integrator().denominator), w)) == w * w,
{
    lemma_integrator_whole();
    lemma_constant(1, w);
    lemma_linear(0, 1, w);
    assert(1 * w == w);
    assert(1 * 0 + 0 * w == 0 && 0 * 0 - 1 * w == -w && 0 * 0 + w * w == w * w)
        by (nonlinear_arith);
}

/// The pure integrator at one radian per second is exactly `-i`: a modulus
/// of one, zero decibels, along the negative imaginary axis, minus ninety
/// degrees. Nothing is lost to rounding.
pub proof fn lemma_integrator_at_one()
    ensures
        response(integrator(), Double { bits: ONE_BITS }) == (Complex {
            re: Double { bits: ZERO_BITS },
            im: Double { bits: MINUS_ONE_BITS },
        }),
        !singular_at(integrator(), Double { bits: ONE_BITS }),
{
    let one = Double { bits: ONE_BITS };
    let zero = Double { bits: ZERO_BITS };
    let minus_one = Double { bits: MINUS_ONE_BITS };
    reveal(response);
    reveal(singular_at);
    lemma_one_scaled();
    lemma_rounded_constant(one);
    lemma_rounded_linear(one);
    let n = rounded_polynomial_at(integrator().numerator, one);
    let d = rounded_polynomial_at(integrator().denominator, one);
    assert(n == (Complex { re: one, im: zero }));
    assert(d == (Complex { re: zero, im: one }));
    assert(one.finite() && zero.finite() && zero.magnitude_bits() == 0 && !one.sign()
        && !zero.sign() && !one.nan() && !zero.nan() && !minus_one.nan());
    lemma_product_zero(zero, zero);
    lemma_product_zero(zero, one);
    lemma_product_one(one);
    lemma_total_zero(zero);
    lemma_total_zero(one);
    lemma_total_zero(minus_one);
    lemma_quotient_one(zero);
    lemma_quotient_one(minus_one);
    assert(signed(false, 0) == zero);
    assert(one.negated() == minus_one);
    assert(product(zero, zero) == zero);
    assert(product(one, zero) == zero);
    assert(product(zero, one) == zero);
    assert(product(one, one) == one);
    assert(total(product(d.re, d.re), product(d.im, d.im)) == one);
    assert(minus_one.finite() && one.magnitude_bits() != 0);
}

} // verus!
