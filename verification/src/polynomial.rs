//! Polynomials with real coefficients at a point `i * w` of the imaginary
//! axis.
//!
//! The value of `c[0] + c[1] * s + c[2] * s^2 + ...` at `s = i * w` is the sum
//! of the terms `c[j] * (i * w)^j`. Each power of `i * w` lies on one of the
//! four half-axes of the complex plane, so a term adds its real weight
//! `c[j] * w^j` to the real or to the imaginary part, with a sign. Which
//! half-axis it is depends on `j` alone and is decided here; so is the whole
//! sum wherever coefficients and frequency are integers.
use vstd::arithmetic::power::*;
use vstd::prelude::*;

verus! {

/// A complex number with integer parts.
pub struct Gaussian {
    pub re: int,
    pub im: int,
}

/// `i * z`.
pub open spec fn turned(z: Gaussian) -> Gaussian {
    Gaussian { re: -z.im, im: z.re }
}

/// `k * z` for a real `k`.
pub open spec fn stretched(z: Gaussian, k: int) -> Gaussian {
    Gaussian { re: k * z.re, im: k * z.im }
}

/// `a + b`.
pub open spec fn sum(a: Gaussian, b: Gaussian) -> Gaussian {
    Gaussian { re: a.re + b.re, im: a.im + b.im }
}

/// `i^j`, by repeated multiplication; `i^0` is one.
pub open spec fn unit_power(j: nat) -> Gaussian
    decreases j,
{
    if j == 0 {
        Gaussian { re: 1, im: 0 }
    } else {
        turned(unit_power((j - 1) as nat))
    }
}

/// `(i * w)^j`, by repeated complex multiplication; the power zero is one
/// for every `w`, zero included.
pub open spec fn imaginary_power(w: int, j: nat) -> Gaussian
    decreases j,
{
    if j == 0 {
        Gaussian { re: 1, im: 0 }
    } else {
        stretched(turned(imaginary_power(w, (j - 1) as nat)), w)
    }
}

/// The sum of `c[j] * (i * w)^j` over all `j`; zero for no coefficients.
pub open spec fn polynomial_at(c: Seq<int>, w: int) -> Gaussian
    decreases c.len(),
{
    if c.len() == 0 {
        Gaussian { re: 0, im: 0 }
    } else {
        sum(
            polynomial_at(c.drop_last(), w),
            stretched(imaginary_power(w, (c.len() - 1) as nat), c.last()),
        )
    }
}

/// The half-axis on which a power of `i * w` lies for `w > 0`.
#[derive(Clone, Copy, Debug, PartialEq, Eq, Structural)]
pub enum Axis {
    /// The direction of `1`.
    PositiveReal,
    /// The direction of `i`.
    PositiveImaginary,
    /// The direction of `-1`.
    NegativeReal,
    /// The direction of `-i`.
    NegativeImaginary,
}

impl Axis {
    /// The unit that points along the half-axis.
    pub open spec fn unit(self) -> Gaussian {
        match self {
            Axis::PositiveReal => Gaussian { re: 1, im: 0 },
            Axis::PositiveImaginary => Gaussian { re: 0, im: 1 },
            Axis::NegativeReal => Gaussian { re: -1, im: 0 },
            Axis::NegativeImaginary => Gaussian { re: 0, im: -1 },
        }
    }
}

/// The half-axis of the remainder of an exponent modulo four.
pub open spec fn axis_of_remainder(remainder: int) -> Axis {
    if remainder == 0 {
        Axis::PositiveReal
    } else if remainder == 1 {
        Axis::PositiveImaginary
    } else if remainder == 2 {
        Axis::NegativeReal
    } else {
        Axis::NegativeImaginary
    }
}

/// The powers of `i` repeat with period four: `1, i, -1, -i`.
pub proof fn lemma_unit_power_cycle(j: nat)
    ensures
        unit_power(j) == axis_of_remainder(j as int % 4).unit(),
    decreases j,
{
    if j > 0 {
        lemma_unit_power_cycle((j - 1) as nat);
    }
}

/// `(i * w)^j == w^j * i^j`: the modulus of a power is the power of the
/// modulus, and its direction is that of the same power of `i`.
pub proof fn lemma_imaginary_power_splits(w: int, j: nat)
    ensures
        imaginary_power(w, j) == stretched(unit_power(j), pow(w, j)),
    decreases j,
{
    reveal(pow);
    if j > 0 {
        let before = (j - 1) as nat;
        lemma_imaginary_power_splits(w, before);
        let p = pow(w, before);
        let u = unit_power(before);
        assert(pow(w, j) == w * p);
        assert(w * (p * u.re) == (w * p) * u.re) by (nonlinear_arith);
        assert(w * -(p * u.im) == (w * p) * -u.im) by (nonlinear_arith);
    }
}

/// The half-axis on which `(i * w)^j` lies: that of `i^j`.
pub fn axis_of_power(j: usize) -> (r: Axis)
    ensures
        r == axis_of_remainder(j as int % 4),
        r.unit() == unit_power(j as nat),
{
    proof {
        lemma_unit_power_cycle(j as nat);
    }
    let remainder: usize = j % 4;
    if remainder == 0 {
        Axis::PositiveReal
    } else if remainder == 1 {
        Axis::PositiveImaginary
    } else if remainder == 2 {
        Axis::NegativeReal
    } else {
        Axis::NegativeImaginary
    }
}

/// The coefficients as integers.
pub open spec fn integers(coefficients: Seq<i64>) -> Seq<int> {
    coefficients.map_values(|c: i64| c as int)
}

/// `x` can be held in 128 bits.
pub open spec fn fits(x: int) -> bool {
    i128::MIN <= x <= i128::MAX
}

/// The numbers met when term `j` is added can be held: the power `w^j`, the
/// weight `c[j] * w^j`, and both parts of the sum up to and including the
/// term.
pub open spec fn step_fits(c: Seq<int>, w: int, j: int) -> bool {
    &&& fits(pow(w, j as nat))
    &&& fits(c[j] * pow(w, j as nat))
    &&& fits(polynomial_at(c.take(j + 1), w).re)
    &&& fits(polynomial_at(c.take(j + 1), w).im)
}

/// Every number met on the way to the value of the polynomial can be held.
pub open spec fn evaluation_fits(c: Seq<int>, w: int) -> bool {
    forall|j: int| 0 <= j < c.len() ==> #[trigger] step_fits(c, w, j)
}

/// Adding term `j` moves the sum along the half-axis of `i^j` by the weight
/// `c[j] * w^j`.
pub proof fn lemma_polynomial_step(c: Seq<int>, w: int, j: int)
    requires
        0 <= j < c.len(),
    ensures
        polynomial_at(c.take(j + 1), w) == sum(
            polynomial_at(c.take(j), w),
            stretched(axis_of_remainder(j % 4).unit(), c[j] * pow(w, j as nat)),
        ),
{
    let head = c.take(j + 1);
    assert(head.drop_last() =~= c.take(j));
    assert(head.last() == c[j]);
    lemma_imaginary_power_splits(w, j as nat);
    lemma_unit_power_cycle(j as nat);
    let u = unit_power(j as nat);
    let p = pow(w, j as nat);
    assert(c[j] * (p * u.re) == (c[j] * p) * u.re) by (nonlinear_arith);
    assert(c[j] * (p * u.im) == (c[j] * p) * u.im) by (nonlinear_arith);
}

/// A weight times zero, one or minus one.
proof fn lemma_unit_weight(weight: int, part: int)
    requires
        -1 <= part <= 1,
    ensures
        part == 0 ==> weight * part == 0,
        part == 1 ==> weight * part == weight,
        part == -1 ==> weight * part == -weight,
{
    assert(weight * 0 == 0 && weight * 1 == weight && weight * -1 == -weight)
        by (nonlinear_arith);
}

/// The exact value of the polynomial with the given integer coefficients, in
/// ascending powers, at `i * w`: its real and its imaginary part. `None`
/// where a power, a term or a partial sum leaves the range of 128 bits, and
/// only there.
#[verifier::rlimit(40)]
pub fn evaluate(coefficients: &Vec<i64>, w: i64) -> (r: Option<(i128, i128)>)
    ensures
        r is Some <==> evaluation_fits(integers(coefficients@), w as int),
        r is Some ==> {
            &&& r->Some_0.0 == polynomial_at(integers(coefficients@), w as int).re
            &&& r->Some_0.1 == polynomial_at(integers(coefficients@), w as int).im
        },
{
    let ghost c = integers(coefficients@);
    let mut re: i128 = 0;
    let mut im: i128 = 0;
    let mut power: i128 = 1;
    let mut j: usize = 0;
    proof {
        reveal(pow);
        assert(c.take(0) =~= Seq::<int>::empty());
    }
    while j < coefficients.len()
        invariant
            j <= coefficients.len(),
            c == integers(coefficients@),
            c.len() == coefficients.len(),
            forall|k: int| 0 <= k < j ==> #[trigger] step_fits(c, w as int, k),
            j == 0 ==> power == 1,
            j > 0 ==> power == pow(w as int, (j - 1) as nat),
            re == polynomial_at(c.take(j as int), w as int).re,
            im == polynomial_at(c.take(j as int), w as int).im,
        decreases coefficients.len() - j,
    {
        proof {
            reveal(pow);
            lemma_polynomial_step(c, w as int, j as int);
            assert(j > 0 ==> pow(w as int, j as nat) == w * pow(w as int, (j - 1) as nat));
            assert(power * (w as i128) == w * power) by (nonlinear_arith);
            assert(j == 0 ==> pow(w as int, j as nat) == 1);
            assert(c[j as int] == coefficients@[j as int] as int);
        }
        if j > 0 {
            match power.checked_mul(w as i128) {
                Some(next) => {
                    power = next;
                },
                None => {
                    assert(!step_fits(c, w as int, j as int));
                    return None;
                },
            }
        }
        let term: i128 = match (coefficients[j] as i128).checked_mul(power) {
            Some(term) => term,
            None => {
                assert(!step_fits(c, w as int, j as int));
                return None;
            },
        };
        proof {
            let unit = axis_of_remainder(j as int % 4).unit();
            lemma_unit_weight(term as int, unit.re);
            lemma_unit_weight(term as int, unit.im);
        }
        let axis: Axis = axis_of_power(j);
        let moved: Option<i128> = match axis {
            Axis::PositiveReal => re.checked_add(term),
            Axis::PositiveImaginary => im.checked_add(term),
            Axis::NegativeReal => re.checked_sub(term),
            Axis::NegativeImaginary => im.checked_sub(term),
        };
        let part: i128 = match moved {
            Some(part) => part,
            None => {
                assert(!step_fits(c, w as int, j as int));
                return None;
            },
        };
        match axis {
            Axis::PositiveReal | Axis::NegativeReal => {
                re = part;
            },
            Axis::PositiveImaginary | Axis::NegativeImaginary => {
                im = part;
            },
        }
        assert(step_fits(c, w as int, j as int));
        j += 1;
    }
    assert(c.take(j as int) =~= c);
    Some((re, im))
}

/// A constant polynomial has its constant as value at every frequency.
pub proof fn lemma_constant(c0: int, w: int)
    ensures
        polynomial_at(seq![c0], w) == (Gaussian { re: c0, im: 0 }),
{
    let c = seq![c0];
    assert(c.drop_last() =~= Seq::<int>::empty());
    assert(polynomial_at(c.drop_last(), w) == (Gaussian { re: 0, im: 0 }));
    assert(c0 * 1 == c0 && c0 * 0 == 0);
}

/// `c0 + c1 * s` at `s = i * w` is `c0 + i * c1 * w`.
pub proof fn lemma_linear(c0: int, c1: int, w: int)
    ensures
        polynomial_at(seq![c0, c1], w) == (Gaussian { re: c0, im: c1 * w }),
{
    let c = seq![c0, c1];
    assert(c.drop_last() =~= seq![c0]);
    lemma_constant(c0, w);
    reveal_with_fuel(imaginary_power, 2);
    assert(imaginary_power(w, 1) == (Gaussian { re: w * 0, im: w * 1 }));
    assert(c1 * (w * 1) == c1 * w && c1 * (w * 0) == 0) by (nonlinear_arith);
}

/// `n * conj(d)`: the quotient `n / d` is this number over the real
/// `norm_squared(d)`.
pub open spec fn quotient_numerator(n: Gaussian, d: Gaussian) -> Gaussian {
    Gaussian { re: n.re * d.re + n.im * d.im, im: n.im * d.re - n.re * d.im }
}

/// `|d|^2`; zero for `d == 0` only.
pub open spec fn norm_squared(d: Gaussian) -> int {
    d.re * d.re + d.im * d.im
}

} // verus!
