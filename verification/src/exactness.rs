//! Where double-precision arithmetic is exact.
//!
//! Whole numbers below `2^53` are doubles, so sums and products of whole
//! numbers are computed without error as long as the results stay below that
//! limit. A polynomial with whole coefficients at a whole frequency then has
//! the value that the integers give, to the last bit.
use crate::arithmetic::lemma_signed_parts;
use crate::arithmetic::product;
use crate::arithmetic::signed;
use crate::arithmetic::total;
use crate::double::lemma_magnitude_sign;
use crate::double::lemma_zero_one_whole;
use crate::double::unit;
use crate::double::Double;
use crate::double::FRACTION_SPAN;
use crate::double::SCALE_EXPONENT;
use crate::evaluation::rounded_polynomial_at;
use crate::evaluation::rounded_power;
use crate::polynomial::axis_of_remainder;
use crate::polynomial::lemma_polynomial_step;
use crate::polynomial::polynomial_at;
use crate::polynomial::Axis;
use crate::rounding::lemma_nearest_exact;
use crate::rounding::lemma_pattern_value;
use crate::rounding::lemma_pattern_zero;
use crate::rounding::lemma_rounded_is;
use crate::rounding::pattern_magnitude;
use crate::rounding::INFINITY_BITS;
use crate::transfer_function::all_whole;
use crate::transfer_function::whole_values;
use vstd::arithmetic::div_mod::*;
use vstd::arithmetic::mul::*;
use vstd::arithmetic::power2::*;
use vstd::arithmetic::power::*;
use vstd::prelude::*;

verus! {

/// Two to the 53rd: every whole number below it is a double.
pub const EXACT_LIMIT: u64 = 0x20_0000_0000_0000;

/// `k` is a whole number of a magnitude below `2^53`.
pub open spec fn within(k: int) -> bool {
    -EXACT_LIMIT < k < EXACT_LIMIT
}

/// `x` is the whole number `k`.
pub open spec fn holds(x: Double, k: int) -> bool {
    x.whole() && x.whole_value() == k
}

/// `k` without its sign.
pub open spec fn size(k: int) -> int {
    if k < 0 {
        -k
    } else {
        k
    }
}

/// The number of bits of `k`.
pub open spec fn length_of(k: nat) -> nat
    decreases k,
{
    if k == 0 {
        0
    } else {
        1 + length_of(k / 2)
    }
}

/// The pattern of the whole number `k` below `2^53`: zero for zero, else the
/// bits of `k` moved up to the leading place, under the exponent that moves
/// them back.
pub open spec fn pattern_of_whole(k: nat) -> int {
    if k == 0 {
        0
    } else {
        (1021 + length_of(k)) * FRACTION_SPAN + k * pow2((53 - length_of(k)) as nat)
    }
}

/// A number of `length_of(k)` bits lies between the powers of two that its
/// length names.
pub proof fn lemma_length_of(k: nat)
    requires
        k > 0,
    ensures
        length_of(k) >= 1,
        pow2((length_of(k) - 1) as nat) <= k < pow2(length_of(k)),
    decreases k,
{
    lemma2_to64();
    if k >= 2 {
        lemma_length_of(k / 2);
        let l = length_of(k / 2);
        lemma_pow2_unfold(l);
        lemma_pow2_unfold((l + 1) as nat);
    } else {
        assert(k / 2 == 0);
        assert(length_of(k) == 1 + length_of(0));
    }
}

/// Every whole number below `2^53` is the magnitude of a finite pattern.
pub proof fn lemma_whole_is_double(k: nat)
    requires
        k < EXACT_LIMIT,
    ensures
        0 <= pattern_of_whole(k) < INFINITY_BITS,
        pattern_magnitude(pattern_of_whole(k)) == k * unit(),
{
    lemma2_to64();
    lemma2_to64_rest();
    if k == 0 {
        lemma_pattern_zero(0);
    } else {
        let l = length_of(k);
        lemma_length_of(k);
        if l > 53 {
            if l > 54 {
                lemma_pow2_strictly_increases(53, (l - 1) as nat);
            }
            assert(false);
        }
        let j = (53 - l) as nat;
        let q = k * pow2(j);
        let s = 1021 + l;
        lemma_pow2_pos(j);
        lemma_pow2_adds((l - 1) as nat, j);
        lemma_pow2_adds(l, j);
        lemma_mul_inequality(pow2((l - 1) as nat) as int, k as int, pow2(j) as int);
        lemma_mul_strict_inequality(k as int, pow2(l) as int, pow2(j) as int);
        assert(FRACTION_SPAN <= q < 2 * FRACTION_SPAN);
        lemma_pattern_value(s as int, q as int);
        lemma_pow2_adds(j, s);
        assert(j + s == SCALE_EXPONENT);
        lemma_mul_is_associative(k as int, pow2(j) as int, pow2(s) as int);
        assert(s * FRACTION_SPAN + q < INFINITY_BITS) by (nonlinear_arith)
            requires
                s <= 1074,
                q < 2 * FRACTION_SPAN,
                FRACTION_SPAN == 0x10_0000_0000_0000,
        ;
        assert(0 <= s * FRACTION_SPAN + q) by (nonlinear_arith)
            requires
                s >= 0,
                q >= 0,
        ;
    }
}

/// A whole double is finite, and its magnitude is the size of its value in
/// units.
pub proof fn lemma_whole_magnitude(x: Double)
    requires
        x.whole(),
    ensures
        x.finite(),
        x.magnitude() == size(x.whole_value()) * unit(),
        x.whole_value() == 0 <==> x.magnitude_bits() == 0,
        x.whole_value() > 0 ==> !x.sign(),
        x.whole_value() < 0 ==> x.sign(),
{
    let u = unit();
    lemma_pow2_pos(SCALE_EXPONENT as nat);
    lemma_magnitude_sign(x);
    lemma_fundamental_div_mod(x.magnitude(), u);
    let q = x.magnitude() / u;
    lemma_mul_is_commutative(u, q);
    lemma_div_pos_is_pos(x.magnitude(), u);
    if x.infinite() {
        // an infinity stands for 2^1024, far beyond 64 bits
        lemma_signed_parts(x);
        lemma_pattern_value(2045, 2 * FRACTION_SPAN);
        assert(x.magnitude_bits() == 2045 * FRACTION_SPAN + 2 * FRACTION_SPAN);
        lemma2_to64();
        lemma2_to64_rest();
        lemma_pow2_adds(53, 2045);
        lemma_pow2_adds(1024, 1074);
        lemma_pow2_strictly_increases(64, 1024);
        assert(x.magnitude() == pow2(1024) * u);
        lemma_div_by_multiple(pow2(1024) as int, u);
        assert(false);
    }
    if q == 0 {
        assert(x.magnitude() == 0);
    } else {
        lemma_mul_strictly_positive(q, u);
    }
}

/// The double with pattern `pattern_of_whole(k)` and the given sign is the
/// whole number `k`, with its sign.
pub proof fn lemma_signed_whole(negative: bool, k: nat)
    requires
        k < EXACT_LIMIT,
    ensures
        holds(
            signed(negative, pattern_of_whole(k)),
            if negative {
                -(k as int)
            } else {
                k as int
            },
        ),
{
    let x = signed(negative, pattern_of_whole(k));
    let u = unit();
    lemma_whole_is_double(k);
    lemma_pow2_pos(SCALE_EXPONENT as nat);
    assert(signed(true, pattern_of_whole(k)).bits == crate::double::SIGN_BIT + pattern_of_whole(k));
    assert(signed(false, pattern_of_whole(k)).bits == pattern_of_whole(k));
    lemma_signed_parts(x);
    assert(x.magnitude_bits() == pattern_of_whole(k));
    assert(x.magnitude() == k * u);
    lemma_mod_multiples_basic(k as int, u);
    lemma_div_by_multiple(k as int, u);
}

/// The product of two whole numbers is computed without error where it is
/// below `2^53`.
pub proof fn lemma_product_exact(a: Double, ka: int, b: Double, kb: int)
    requires
        holds(a, ka),
        holds(b, kb),
        within(ka * kb),
    ensures
        holds(product(a, b), ka * kb),
{
    let u = unit();
    lemma_whole_magnitude(a);
    lemma_whole_magnitude(b);
    lemma_pow2_pos(SCALE_EXPONENT as nat);
    let (sa, sb) = (size(ka), size(kb));
    let k = sa * sb;
    lemma_mul_nonnegative(sa, sb);
    assert(k == size(ka * kb)) by (nonlinear_arith)
        requires
            k == sa * sb,
            sa == size(ka),
            sb == size(kb),
    ;
    lemma_whole_is_double(k as nat);
    let c = pattern_of_whole(k as nat);
    assert(pattern_magnitude(c) * u == a.magnitude() * b.magnitude()) by (nonlinear_arith)
        requires
            pattern_magnitude(c) == k * u,
            k == sa * sb,
            a.magnitude() == sa * u,
            b.magnitude() == sb * u,
    ;
    lemma_nearest_exact(c, u);
    lemma_rounded_is(c, a.magnitude() * b.magnitude(), u);
    lemma_signed_whole(a.sign() != b.sign(), k as nat);
    assert((ka > 0 && kb > 0 || ka < 0 && kb < 0) ==> ka * kb == k) by (nonlinear_arith)
        requires
            k == size(ka) * size(kb),
    ;
    assert((ka > 0 && kb < 0 || ka < 0 && kb > 0) ==> ka * kb == -k) by (nonlinear_arith)
        requires
            k == size(ka) * size(kb),
    ;
    assert((ka == 0 || kb == 0) ==> ka * kb == 0 && k == 0) by (nonlinear_arith)
        requires
            k == size(ka) * size(kb),
    ;
    if k == 0 {
        assert(holds(signed(true, 0), 0) && holds(signed(false, 0), 0));
    }
}

/// The sum of two whole numbers is computed without error where it is
/// below `2^53`.
pub proof fn lemma_total_exact(a: Double, ka: int, b: Double, kb: int)
    requires
        holds(a, ka),
        holds(b, kb),
        within(ka + kb),
    ensures
        holds(total(a, b), ka + kb),
{
    let u = unit();
    lemma_whole_magnitude(a);
    lemma_whole_magnitude(b);
    lemma_pow2_pos(SCALE_EXPONENT as nat);
    let exact = a.scaled() + b.scaled();
    assert(a.scaled() == ka * u) by (nonlinear_arith)
        requires
            a.magnitude() == size(ka) * u,
            a.scaled() == if a.sign() {
                -a.magnitude()
            } else {
                a.magnitude()
            },
            ka > 0 ==> !a.sign(),
            ka < 0 ==> a.sign(),
    ;
    assert(b.scaled() == kb * u) by (nonlinear_arith)
        requires
            b.magnitude() == size(kb) * u,
            b.scaled() == if b.sign() {
                -b.magnitude()
            } else {
                b.magnitude()
            },
            kb > 0 ==> !b.sign(),
            kb < 0 ==> b.sign(),
    ;
    let k = size(ka + kb);
    assert(exact == (ka + kb) * u) by (nonlinear_arith)
        requires
            exact == ka * u + kb * u,
    ;
    lemma_whole_is_double(k as nat);
    let c = pattern_of_whole(k as nat);
    lemma_nearest_exact(c, 1);
    assert(pattern_magnitude(c) * 1 == k * u);
    if ka + kb == 0 {
        assert(exact == 0);
        lemma_signed_whole(a.sign() && b.sign(), 0);
    } else if ka + kb > 0 {
        lemma_mul_strictly_positive(ka + kb, u);
        lemma_rounded_is(c, exact, 1);
        lemma_signed_whole(false, k as nat);
    } else {
        assert(-exact == k * u) by (nonlinear_arith)
            requires
                exact == (ka + kb) * u,
                k == -(ka + kb),
        ;
        lemma_mul_strictly_positive(k, u);
        lemma_rounded_is(c, -exact, 1);
        lemma_signed_whole(true, k as nat);
    }
}

/// The opposite of a whole number is the whole number with the other sign.
pub proof fn lemma_negated_exact(a: Double, ka: int)
    requires
        holds(a, ka),
        within(ka),
    ensures
        holds(a.negated(), -ka),
{
    lemma_signed_parts(a);
    lemma_signed_parts(a.negated());
    assert(a.negated().magnitude_bits() == a.magnitude_bits());
    assert(a.negated().sign() == !a.sign());
}

/// The numbers met when term `j` is added are below `2^53`: the power
/// `w^j`, the weight `c[j] * w^j`, and both parts of the sum up to and
/// including the term.
pub open spec fn step_within(c: Seq<int>, w: int, j: int) -> bool {
    &&& within(pow(w, j as nat))
    &&& within(c[j] * pow(w, j as nat))
    &&& within(polynomial_at(c.take(j + 1), w).re)
    &&& within(polynomial_at(c.take(j + 1), w).im)
}

/// Every number met on the way to the value of the polynomial is below
/// `2^53`.
pub open spec fn evaluation_within(c: Seq<int>, w: int) -> bool {
    forall|j: int| 0 <= j < c.len() ==> #[trigger] step_within(c, w, j)
}

/// The rounded powers of a whole number are its powers, as long as they are
/// below `2^53`.
pub proof fn lemma_power_exact(w: Double, kw: int, j: nat)
    requires
        holds(w, kw),
        forall|i: nat| i <= j ==> within(#[trigger] pow(kw, i)),
    ensures
        holds(rounded_power(w, j), pow(kw, j)),
    decreases j,
{
    reveal(pow);
    if j == 0 {
        lemma_zero_one_whole();
    } else {
        let before = (j - 1) as nat;
        assert forall|i: nat| i <= before implies within(#[trigger] pow(kw, i)) by {
            assert(i <= j);
        }
        lemma_power_exact(w, kw, before);
        assert(within(pow(kw, j)));
        lemma_mul_is_commutative(kw, pow(kw, before));
        lemma_product_exact(rounded_power(w, before), pow(kw, before), w, kw);
    }
}

/// A polynomial with whole coefficients at a whole frequency has, in
/// double-precision arithmetic, exactly the value `sum of c[j] * (i * w)^j`,
/// as long as every number met on the way is below `2^53`.
pub proof fn lemma_evaluation_exact(c: Seq<Double>, w: Double)
    requires
        all_whole(c),
        w.whole(),
        evaluation_within(whole_values(c), w.whole_value()),
    ensures
        holds(
            rounded_polynomial_at(c, w).re,
            polynomial_at(whole_values(c), w.whole_value()).re,
        ),
        holds(
            rounded_polynomial_at(c, w).im,
            polynomial_at(whole_values(c), w.whole_value()).im,
        ),
    decreases c.len(),
{
    let kw = w.whole_value();
    let k = whole_values(c);
    if c.len() == 0 {
        lemma_zero_one_whole();
    } else {
        let j = (c.len() - 1) as int;
        let head = c.drop_last();
        assert(whole_values(head) =~= k.take(j));
        assert(k.take(j + 1) =~= k);
        assert forall|i: int| 0 <= i < head.len() implies #[trigger] step_within(
            whole_values(head),
            kw,
            i,
        ) by {
            assert(step_within(k, kw, i));
            assert(whole_values(head).take(i + 1) =~= k.take(i + 1));
        }
        assert(all_whole(head));
        lemma_evaluation_exact(head, w);
        assert forall|i: nat| i <= j as nat implies within(#[trigger] pow(kw, i)) by {
            assert(step_within(k, kw, i as int));
        }
        lemma_power_exact(w, kw, j as nat);
        assert(step_within(k, kw, j));
        let weight = product(c.last(), rounded_power(w, j as nat));
        let kt = k[j] * pow(kw, j as nat);
        assert(c.last().whole() && c.last().whole_value() == k[j]);
        lemma_product_exact(c.last(), k[j], rounded_power(w, j as nat), pow(kw, j as nat));
        lemma_negated_exact(weight, kt);
        lemma_polynomial_step(k, kw, j);
        let before = rounded_polynomial_at(head, w);
        let exact_before = polynomial_at(k.take(j), kw);
        let exact_after = polynomial_at(k, kw);
        let axis = axis_of_remainder(j % 4);
        assert(kt * 1 == kt && kt * 0 == 0 && kt * -1 == -kt) by (nonlinear_arith);
        match axis {
            Axis::PositiveReal => {
                assert(exact_after.re == exact_before.re + kt);
                lemma_total_exact(before.re, exact_before.re, weight, kt);
            },
            Axis::PositiveImaginary => {
                assert(exact_after.im == exact_before.im + kt);
                lemma_total_exact(before.im, exact_before.im, weight, kt);
            },
            Axis::NegativeReal => {
                assert(exact_after.re == exact_before.re - kt);
                lemma_total_exact(before.re, exact_before.re, weight.negated(), -kt);
            },
            Axis::NegativeImaginary => {
                assert(exact_after.im == exact_before.im - kt);
                lemma_total_exact(before.im, exact_before.im, weight.negated(), -kt);
            },
        }
    }
}

} // verus!
