//! The value of a polynomial with double coefficients at a point `i * w` of
//! the imaginary axis, in double-precision arithmetic.
//!
//! The powers of `w` come from repeated multiplication. Each term adds its
//! weight `c[j] * w^j` to the real or to the imaginary part, or takes it
//! away, as the half-axis of `i^j` says; every product and every sum is
//! rounded to the nearest double.
use crate::arithmetic::lemma_product_commutes;
use crate::arithmetic::lemma_product_one;
use crate::arithmetic::lemma_total_zero;
use crate::arithmetic::product;
use crate::arithmetic::quotient;
use crate::arithmetic::total;
use crate::double::lemma_magnitude_sign;
use crate::double::lemma_one_scaled;
use crate::double::Double;
use crate::double::ONE_BITS;
use crate::double::ZERO_BITS;
use crate::polynomial::axis_of_power;
use crate::polynomial::axis_of_remainder;
use crate::polynomial::Axis;
use vstd::prelude::*;

verus! {

/// A complex number with double parts.
#[derive(Clone, Copy, Debug)]
pub struct Complex {
    pub re: Double,
    pub im: Double,
}

impl Complex {
    /// Both parts are zero.
    pub open spec fn vanishes(self) -> bool {
        self.re.magnitude_bits() == 0 && self.im.magnitude_bits() == 0
    }

    /// Both parts are finite numbers.
    pub open spec fn finite(self) -> bool {
        self.re.finite() && self.im.finite()
    }

    /// Whether the number is zero.
    pub fn is_zero(&self) -> (r: bool)
        ensures
            r == self.vanishes(),
    {
        proof {
            lemma_magnitude_sign(self.re);
            lemma_magnitude_sign(self.im);
        }
        self.re.is_zero() && self.im.is_zero()
    }

    /// Whether both parts are finite numbers.
    pub fn is_finite(&self) -> (r: bool)
        ensures
            r == self.finite(),
    {
        self.re.is_finite() && self.im.is_finite()
    }
}

/// `n / d` as `n * conj(d) / |d|^2`, every operation rounded: the real part
/// is `(n.re * d.re + n.im * d.im) / (d.re^2 + d.im^2)`, the imaginary part
/// `(n.im * d.re - n.re * d.im) / (d.re^2 + d.im^2)`.
pub open spec fn complex_quotient(n: Complex, d: Complex) -> Complex {
    let norm = total(product(d.re, d.re), product(d.im, d.im));
    Complex {
        re: quotient(total(product(n.re, d.re), product(n.im, d.im)), norm),
        im: quotient(total(product(n.im, d.re), product(n.re, d.im).negated()), norm),
    }
}

/// `n / d`, every operation rounded.
pub fn divide(n: &Complex, d: &Complex) -> (r: Complex)
    ensures
        r == complex_quotient(*n, *d),
{
    let norm: Double = d.re.times(&d.re).plus(&d.im.times(&d.im));
    let re: Double = n.re.times(&d.re).plus(&n.im.times(&d.im));
    let im: Double = n.im.times(&d.re).minus(&n.re.times(&d.im));
    Complex { re: re.over(&norm), im: im.over(&norm) }
}

/// `w^j` by repeated rounded multiplication; the power zero is one for every
/// `w`, zero included.
pub open spec fn rounded_power(w: Double, j: nat) -> Double
    decreases j,
{
    if j == 0 {
        Double { bits: ONE_BITS }
    } else {
        product(rounded_power(w, (j - 1) as nat), w)
    }
}

/// `z` moved by `weight` along the half-axis `axis`.
pub open spec fn moved(z: Complex, axis: Axis, weight: Double) -> Complex {
    match axis {
        Axis::PositiveReal => Complex { re: total(z.re, weight), im: z.im },
        Axis::PositiveImaginary => Complex { re: z.re, im: total(z.im, weight) },
        Axis::NegativeReal => Complex { re: total(z.re, weight.negated()), im: z.im },
        Axis::NegativeImaginary => Complex { re: z.re, im: total(z.im, weight.negated()) },
    }
}

/// The sum of the terms `c[j] * (i * w)^j` in ascending order of `j`, from
/// zero, every operation rounded.
pub open spec fn rounded_polynomial_at(c: Seq<Double>, w: Double) -> Complex
    decreases c.len(),
{
    if c.len() == 0 {
        Complex { re: Double { bits: ZERO_BITS }, im: Double { bits: ZERO_BITS } }
    } else {
        moved(
            rounded_polynomial_at(c.drop_last(), w),
            axis_of_remainder((c.len() - 1) % 4),
            product(c.last(), rounded_power(w, (c.len() - 1) as nat)),
        )
    }
}

/// The value at `i * w` of the polynomial with the given coefficients, in
/// ascending powers.
pub fn evaluate_rounded(coefficients: &Vec<Double>, w: Double) -> (r: Complex)
    ensures
        r == rounded_polynomial_at(coefficients@, w),
{
    let mut value = Complex { re: Double::zero(), im: Double::zero() };
    let mut power: Double = Double::one();
    let mut j: usize = 0;
    assert(coefficients@.take(0) =~= Seq::<Double>::empty());
    while j < coefficients.len()
        invariant
            j <= coefficients.len(),
            j == 0 ==> power == rounded_power(w, 0),
            j > 0 ==> power == rounded_power(w, (j - 1) as nat),
            value == rounded_polynomial_at(coefficients@.take(j as int), w),
        decreases coefficients.len() - j,
    {
        if j > 0 {
            power = power.times(&w);
        }
        let weight: Double = coefficients[j].times(&power);
        proof {
            let head = coefficients@.take(j + 1);
            assert(head.drop_last() =~= coefficients@.take(j as int));
            assert(head.last() == coefficients@[j as int]);
        }
        value =
        match axis_of_power(j) {
            Axis::PositiveReal => Complex { re: value.re.plus(&weight), im: value.im },
            Axis::PositiveImaginary => Complex { re: value.re, im: value.im.plus(&weight) },
            Axis::NegativeReal => Complex { re: value.re.minus(&weight), im: value.im },
            Axis::NegativeImaginary => Complex { re: value.re, im: value.im.minus(&weight) },
        };
        j += 1;
    }
    assert(coefficients@.take(j as int) =~= coefficients@);
    value
}

/// A constant polynomial `[1]` has the value one at every frequency.
pub proof fn lemma_rounded_constant(w: Double)
    ensures
        rounded_polynomial_at(seq![Double { bits: ONE_BITS }], w) == (Complex {
            re: Double { bits: ONE_BITS },
            im: Double { bits: ZERO_BITS },
        }),
{
    let one = Double { bits: ONE_BITS };
    lemma_one_scaled();
    lemma_first_term(one, w);
    lemma_product_one(one);
    lemma_total_zero(one);
}

/// The first term is the constant: one coefficient gives zero plus that
/// coefficient times one.
pub proof fn lemma_first_term(c0: Double, w: Double)
    ensures
        rounded_polynomial_at(seq![c0], w) == (Complex {
            re: total(Double { bits: ZERO_BITS }, product(c0, Double { bits: ONE_BITS })),
            im: Double { bits: ZERO_BITS },
        }),
{
    let c = seq![c0];
    assert(c.drop_last() =~= Seq::<Double>::empty());
    assert(c.last() == c0);
    assert(c.len() == 1);
    reveal_with_fuel(rounded_polynomial_at, 2);
    assert(rounded_polynomial_at(c.drop_last(), w) == (Complex {
        re: Double { bits: ZERO_BITS },
        im: Double { bits: ZERO_BITS },
    }));
}

/// The second term adds the first coefficient of `s` times `w`, on the
/// imaginary axis.
pub proof fn lemma_second_term(c0: Double, c1: Double, w: Double)
    ensures
        rounded_polynomial_at(seq![c0, c1], w) == (Complex {
            re: rounded_polynomial_at(seq![c0], w).re,
            im: total(
                rounded_polynomial_at(seq![c0], w).im,
                product(c1, product(Double { bits: ONE_BITS }, w)),
            ),
        }),
{
    let c = seq![c0, c1];
    assert(c.drop_last() =~= seq![c0]);
    assert(c.last() == c1);
    assert(c.len() == 2);
    reveal_with_fuel(rounded_power, 2);
    assert(rounded_power(w, 1) == product(Double { bits: ONE_BITS }, w));
}

/// The polynomial `s`, coefficients `[0, 1]`, has the value `i * w` at every
/// frequency `w > 0`, and `1 + s` the value `1 + i * w`: nothing is lost to
/// rounding.
pub proof fn lemma_rounded_linear(w: Double)
    requires
        w.positive(),
    ensures
        rounded_polynomial_at(seq![Double { bits: ZERO_BITS }, Double { bits: ONE_BITS }], w) == (
        Complex { re: Double { bits: ZERO_BITS }, im: w }),
        rounded_polynomial_at(seq![Double { bits: ONE_BITS }, Double { bits: ONE_BITS }], w) == (
        Complex { re: Double { bits: ONE_BITS }, im: w }),
{
    let one = Double { bits: ONE_BITS };
    let zero = Double { bits: ZERO_BITS };
    lemma_one_scaled();
    lemma_product_one(one);
    lemma_product_one(zero);
    lemma_product_one(w);
    lemma_total_zero(one);
    lemma_total_zero(zero);
    lemma_total_zero(w);
    lemma_product_commutes(one, w);
    lemma_first_term(zero, w);
    lemma_first_term(one, w);
    lemma_second_term(zero, one, w);
    lemma_second_term(one, one, w);
}

} // verus!
