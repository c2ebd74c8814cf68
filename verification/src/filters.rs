//! Filters, as producers of transfer functions.
use crate::arithmetic::lemma_circle_constants;
use crate::arithmetic::lemma_doubling;
use crate::arithmetic::lemma_half_quotient;
use crate::arithmetic::lemma_product_commutes;
use crate::arithmetic::lemma_product_one;
use crate::arithmetic::lemma_product_stays_positive;
use crate::arithmetic::lemma_product_value;
use crate::arithmetic::lemma_product_zero;
use crate::arithmetic::lemma_signed_parts;
use crate::arithmetic::lemma_total_right_zero;
use crate::arithmetic::lemma_total_zero;
use crate::arithmetic::product;
use crate::arithmetic::signed;
use crate::arithmetic::total;
use crate::double::lemma_magnitude_sign;
use crate::double::lemma_one_scaled;
use crate::double::lemma_zero_one_whole;
use crate::double::Double;
use crate::double::HALF_BITS;
use crate::double::MINUS_HALF_BITS;
use crate::double::ONE_BITS;
use crate::double::PI_BITS;
use crate::double::SIGN_BIT;
use crate::double::TWO_BITS;
use crate::double::ZERO_BITS;
use crate::error::BodeError;
use crate::evaluation::lemma_first_term;
use crate::evaluation::lemma_second_term;
use crate::evaluation::rounded_polynomial_at;
use crate::evaluation::Complex;
use crate::polynomial::lemma_constant;
use crate::polynomial::lemma_linear;
use crate::polynomial::norm_squared;
use crate::polynomial::polynomial_at;
use crate::polynomial::quotient_numerator;
use crate::polynomial::Gaussian;
use crate::transfer_function::all_whole;
use crate::transfer_function::response;
use crate::transfer_function::singular_at;
use crate::transfer_function::whole_values;
use crate::transfer_function::Coefficients;
use crate::transfer_function::TransferFunction;
use vstd::prelude::*;

verus! {

/// The angular frequency, in radians per second, of a frequency in hertz:
/// the frequency times two, times pi, each product rounded.
pub open spec fn angular(hertz: Double) -> Double {
    product(product(hertz, Double { bits: TWO_BITS }), Double { bits: PI_BITS })
}

/// The coefficients of the first-order low-pass `H(s) = w / (s + w)` with
/// angular cut-off `w`.
pub open spec fn low_pass(cut_off: Double) -> Coefficients {
    Coefficients {
        numerator: seq![cut_off],
        denominator: seq![cut_off, Double { bits: ONE_BITS }],
    }
}

/// A first-order low-pass filter. It keeps its cut-off for display and leaves
/// every computation to the transfer function it was built into.
#[derive(Debug)]
pub struct LowPassFilter {
    cut_off_hz: Double,
    cut_off: Double,
    filter_order: usize,
    transfer_function: TransferFunction,
}

impl LowPassFilter {
    /// The cut-off frequency in hertz.
    pub closed spec fn spec_cut_off_hz(&self) -> Double {
        self.cut_off_hz
    }

    /// The cut-off frequency in radians per second.
    pub closed spec fn spec_cut_off(&self) -> Double {
        self.cut_off
    }

    /// The order of the filter.
    pub closed spec fn spec_filter_order(&self) -> nat {
        self.filter_order as nat
    }

    /// The coefficients of the filter's transfer function.
    pub closed spec fn coefficients(&self) -> Coefficients {
        self.transfer_function@
    }

    /// What every filter that `new` returns satisfies.
    pub open spec fn wf(&self) -> bool {
        &&& self.spec_cut_off_hz().positive()
        &&& self.spec_cut_off().positive()
        &&& self.spec_cut_off() == angular(self.spec_cut_off_hz())
        &&& self.spec_filter_order() == 1
        &&& self.coefficients() == low_pass(self.spec_cut_off())
    }

    /// The low-pass filter with the given cut-off in hertz, which has to be a
    /// number above zero; zero, a negative number and what is not a number
    /// are refused, and no filter is built.
    pub fn new(cut_off_freq_hz: Double) -> (r: Result<LowPassFilter, BodeError>)
        ensures
            r is Ok <==> cut_off_freq_hz.positive(),
            r is Err ==> r->Err_0 == BodeError::InvalidParameter,
            r is Ok ==> r->Ok_0.wf() && r->Ok_0.spec_cut_off_hz() == cut_off_freq_hz,
    {
        if !cut_off_freq_hz.is_positive() {
            return Err(BodeError::InvalidParameter);
        }
        let two = Double::from_bits(TWO_BITS);
        let pi = Double::from_bits(PI_BITS);
        let doubled: Double = cut_off_freq_hz.times(&two);
        let cof: Double = doubled.times(&pi);
        proof {
            lemma_circle_constants();
            lemma_product_stays_positive(cut_off_freq_hz, two, doubled);
            lemma_product_stays_positive(doubled, pi, cof);
        }
        let transfer_function = TransferFunction::new(vec![cof], vec![cof, Double::one()]);
        proof {
            assert(transfer_function@.numerator =~= low_pass(cof).numerator);
            assert(transfer_function@.denominator =~= low_pass(cof).denominator);
        }
        Ok(
            LowPassFilter {
                cut_off_hz: cut_off_freq_hz,
                cut_off: cof,
                filter_order: 1,
                transfer_function,
            },
        )
    }

    /// The cut-off frequency in hertz, as given.
    pub fn cut_off_hz(&self) -> (r: Double)
        ensures
            r == self.spec_cut_off_hz(),
    {
        self.cut_off_hz
    }

    /// The cut-off frequency in radians per second.
    pub fn cut_off(&self) -> (r: Double)
        ensures
            r == self.spec_cut_off(),
    {
        self.cut_off
    }

    /// The order of the filter.
    pub fn filter_order(&self) -> (r: usize)
        ensures
            r == self.spec_filter_order(),
    {
        self.filter_order
    }

    /// The transfer function that the filter was built into.
    pub fn transfer_function(&self) -> (r: &TransferFunction)
        ensures
            r@ == self.coefficients(),
    {
        &self.transfer_function
    }
}

/// A filter built from a cut-off and a transfer function built directly from
/// the coefficients `[w]` over `[w, 1]`, with `w` the filter's angular
/// cut-off, are the same model: at every frequency they have the same
/// response, or both have none.
pub proof fn lemma_low_pass_is_direct(filter: LowPassFilter, direct: TransferFunction, w: Double)
    requires
        filter.wf(),
        direct@.numerator == seq![filter.spec_cut_off()],
        direct@.denominator == seq![filter.spec_cut_off(), Double { bits: ONE_BITS }],
    ensures
        filter.coefficients() == direct@,
        response(filter.coefficients(), w) == response(direct@, w),
        singular_at(filter.coefficients(), w) == singular_at(direct@, w),
{
}

/// The low-pass at its cut-off is exactly `(1 - i) / 2` in double-precision
/// arithmetic: a phase of minus forty-five degrees and a modulus of the
/// square root of one half, three decibels down. It holds for every cut-off
/// whose square neither vanishes nor, doubled, leaves the finite numbers.
pub proof fn lemma_low_pass_at_cut_off(cut_off: Double)
    requires
        cut_off.positive(),
        cut_off.finite(),
        product(cut_off, cut_off).magnitude_bits() != 0,
        total(product(cut_off, cut_off), product(cut_off, cut_off)).finite(),
    ensures
        response(low_pass(cut_off), cut_off) == (Complex {
            re: Double { bits: HALF_BITS },
            im: Double { bits: MINUS_HALF_BITS },
        }),
        !singular_at(low_pass(cut_off), cut_off),
{
    let a = cut_off;
    let one = Double { bits: ONE_BITS };
    let zero = Double { bits: ZERO_BITS };
    let s = product(a, a);
    let t = total(s, s);
    reveal(response);
    reveal(singular_at);
    lemma_one_scaled();
    lemma_magnitude_sign(a);
    // numerator a and denominator a + i a
    lemma_first_term(a, a);
    lemma_second_term(a, one, a);
    lemma_product_one(a);
    lemma_product_one(one);
    lemma_product_commutes(one, a);
    lemma_total_zero(a);
    let n = rounded_polynomial_at(low_pass(a).numerator, a);
    let d = rounded_polynomial_at(low_pass(a).denominator, a);
    assert(n == (Complex { re: a, im: zero }));
    assert(d == (Complex { re: a, im: a }));
    // the parts of the quotient
    lemma_product_value(a, a);
    lemma_product_zero(zero, a);
    assert(product(zero, a) == zero);
    lemma_total_right_zero(s);
    lemma_signed_parts(s);
    lemma_signed_parts(s.negated());
    assert(!s.negated().nan() && s.negated().bits != SIGN_BIT);
    lemma_total_zero(s.negated());
    lemma_doubling(s);
    lemma_half_quotient(s, t);
    lemma_half_quotient(s.negated(), t);
    assert(s.negated().magnitude() == s.magnitude());
    assert(s.negated().sign() && s.negated().finite());
    assert(signed(false, HALF_BITS as int).bits == HALF_BITS);
    assert(signed(true, HALF_BITS as int).bits == MINUS_HALF_BITS);
    let half = Double { bits: HALF_BITS };
    let minus_half = Double { bits: MINUS_HALF_BITS };
    assert(half.finite() && minus_half.finite());
}

/// With a cut-off of a whole number `a` of radians per second, the
/// low-pass has the whole coefficients `[a]` over `[a, 1]`.
pub proof fn lemma_low_pass_whole(cut_off: Double)
    requires
        cut_off.whole(),
    ensures
        all_whole(low_pass(cut_off).numerator),
        all_whole(low_pass(cut_off).denominator),
        whole_values(low_pass(cut_off).numerator) == seq![cut_off.whole_value()],
        whole_values(low_pass(cut_off).denominator) == seq![cut_off.whole_value(), 1int],
{
    lemma_zero_one_whole();
    assert(whole_values(low_pass(cut_off).numerator) =~= seq![cut_off.whole_value()]);
    assert(whole_values(low_pass(cut_off).denominator) =~= seq![cut_off.whole_value(), 1int]);
}

/// The low-pass with a cut-off of a whole number `a` of radians per second
/// is `(a^2 - i * a * w) / (a^2 + w^2)` at `i * w`. At the cut-off, `w == a`,
/// that is `(1 - i) / 2`: a phase of minus forty-five degrees and a squared
/// modulus of one half, three decibels down.
pub proof fn lemma_low_pass_response(cut_off: Double, w: int)
    requires
        cut_off.whole(),
    ensures
        quotient_numerator(
            polynomial_at(whole_values(low_pass(cut_off).numerator), w),
            polynomial_at(whole_values(low_pass(cut_off).denominator), w),
        ) == (Gaussian {
            re: cut_off.whole_value() * cut_off.whole_value(),
            im: -(cut_off.whole_value() * w),
        }),
        norm_squared(polynomial_at(whole_values(low_pass(cut_off).denominator), w))
            == cut_off.whole_value() * cut_off.whole_value() + w * w,
{
    let a = cut_off.whole_value();
    lemma_low_pass_whole(cut_off);
    lemma_constant(a, w);
    lemma_linear(a, 1, w);
    assert(1 * w == w);
    assert(a * a + 0 * w == a * a && 0 * a - a * w == -(a * w)) by (nonlinear_arith);
}

/// The low-pass rolls off: its response, `(a^2 - i * a * w) / (a^2 + w^2)`,
/// lies in the fourth quadrant for every frequency above zero, a phase
/// between minus ninety degrees and zero, and its squared modulus
/// `a^2 / (a^2 + w^2)` is below one and falls as the frequency rises.
pub proof fn lemma_low_pass_rolls_off(cut_off: Double, w1: int, w2: int)
    requires
        cut_off.whole(),
        cut_off.whole_value() > 0,
        0 < w1 < w2,
    ensures
        ({
            let a = cut_off.whole_value();
            let n = polynomial_at(whole_values(low_pass(cut_off).numerator), w1);
            let d1 = polynomial_at(whole_values(low_pass(cut_off).denominator), w1);
            let d2 = polynomial_at(whole_values(low_pass(cut_off).denominator), w2);
            &&& quotient_numerator(n, d1).re > 0
            &&& quotient_numerator(n, d1).im < 0
            &&& a * a < norm_squared(d1) < norm_squared(d2)
        }),
{
    let a = cut_off.whole_value();
    lemma_low_pass_response(cut_off, w1);
    lemma_low_pass_response(cut_off, w2);
    assert(a * a > 0 && a * w1 > 0 && 0 < w1 * w1 < w2 * w2) by (nonlinear_arith)
        requires
            a > 0,
            0 < w1 < w2,
    ;
}

} // verus!
