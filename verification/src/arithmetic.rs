//! Products and sums of doubles, rounded to the nearest double.
//!
//! Each operation gives the double nearest to the exact result, ties to even,
//! as the machine's arithmetic does; the result is computed on the bit
//! patterns with integers alone.
use crate::double::lemma_magnitude_sign;
use crate::double::lemma_one_scaled;
use crate::double::unit;
use crate::double::Double;
use crate::double::FRACTION_SPAN;
use crate::double::HALF_BITS;
use crate::double::ONE_BITS;
use crate::double::PI_BITS;
use crate::double::SCALE_EXPONENT;
use crate::double::SIGN_BIT;
use crate::double::TWO_BITS;
use crate::double::TWO_PI_BITS;
use crate::double::ZERO_BITS;
use crate::rounding::bit_length;
use crate::rounding::down_shift;
use crate::rounding::gap;
use crate::rounding::lemma_nearest_exact;
use crate::rounding::lemma_nearest_of_neighbours;
use crate::rounding::lemma_nearest_scales;
use crate::rounding::lemma_nearest_unscales;
use crate::rounding::lemma_overflow_case;
use crate::rounding::lemma_pattern_value;
use crate::rounding::lemma_pattern_zero;
use crate::rounding::lemma_rounded_is;
use crate::rounding::lemma_rounding_exists;
use crate::rounding::nearest;
use crate::rounding::pattern_magnitude;
use crate::rounding::round_to_pattern;
use crate::rounding::rounded;
use crate::rounding::two_to_wide;
use crate::rounding::up_shift;
use crate::rounding::INFINITY_BITS;
use vstd::arithmetic::mul::*;
use vstd::arithmetic::power2::*;
use vstd::prelude::*;

verus! {

/// The bit pattern that stands for every result that is not a number.
pub const NAN_BITS: u64 = 0x7FF8_0000_0000_0000;

/// The double with the given sign and the given pattern below the sign bit.
pub open spec fn signed(negative: bool, pattern: int) -> Double {
    Double {
        bits: if negative {
            (SIGN_BIT + pattern) as u64
        } else {
            pattern as u64
        },
    }
}

/// `a * b`, rounded. Not a number where an operand is none, or where zero
/// meets infinity.
pub open spec fn product(a: Double, b: Double) -> Double {
    if a.nan() || b.nan() {
        Double { bits: NAN_BITS }
    } else if a.infinite() || b.infinite() {
        if a.magnitude_bits() == 0 || b.magnitude_bits() == 0 {
            Double { bits: NAN_BITS }
        } else {
            signed(a.sign() != b.sign(), INFINITY_BITS as int)
        }
    } else {
        signed(a.sign() != b.sign(), rounded(a.magnitude() * b.magnitude(), unit()))
    }
}

/// `a + b`, rounded. Not a number where an operand is none, or where the
/// two infinities meet. A sum that is exactly zero is negative zero only
/// where both operands are negative.
pub open spec fn total(a: Double, b: Double) -> Double {
    if a.nan() || b.nan() {
        Double { bits: NAN_BITS }
    } else if a.infinite() && b.infinite() && a.sign() != b.sign() {
        Double { bits: NAN_BITS }
    } else if a.infinite() {
        signed(a.sign(), INFINITY_BITS as int)
    } else if b.infinite() {
        signed(b.sign(), INFINITY_BITS as int)
    } else {
        let exact = a.scaled() + b.scaled();
        if exact == 0 {
            signed(a.sign() && b.sign(), 0)
        } else if exact > 0 {
            signed(false, rounded(exact, 1))
        } else {
            signed(true, rounded(-exact, 1))
        }
    }
}

/// `a / b`, rounded. Not a number where an operand is none, where both are
/// zero or both are infinite. A number other than zero over zero is an
/// infinity, and a finite number over an infinity is zero.
pub open spec fn quotient(a: Double, b: Double) -> Double {
    if a.nan() || b.nan() {
        Double { bits: NAN_BITS }
    } else if a.infinite() {
        if b.infinite() {
            Double { bits: NAN_BITS }
        } else {
            signed(a.sign() != b.sign(), INFINITY_BITS as int)
        }
    } else if b.infinite() {
        signed(a.sign() != b.sign(), 0)
    } else if b.magnitude_bits() == 0 {
        if a.magnitude_bits() == 0 {
            Double { bits: NAN_BITS }
        } else {
            signed(a.sign() != b.sign(), INFINITY_BITS as int)
        }
    } else {
        signed(a.sign() != b.sign(), rounded(a.magnitude() * unit(), b.magnitude()))
    }
}

/// `x` with its sign: `-x` where `negative`.
pub open spec fn with_sign(negative: bool, x: int) -> int {
    if negative {
        -x
    } else {
        x
    }
}

/// The magnitude `m * 2^s` of a finite number: `m` below `2^53`, with its
/// leading bit set wherever `s` is not zero.
fn parts(x: &Double) -> (r: (u64, i32))
    requires
        x.finite(),
    ensures
        x.magnitude() == r.0 * pow2(r.1 as nat),
        r.0 < 2 * FRACTION_SPAN,
        0 <= r.1 <= 2045,
        r.0 >= FRACTION_SPAN || r.1 == 0,
        x.magnitude_bits() == r.1 * FRACTION_SPAN + r.0,
        r.0 == 0 <==> x.magnitude_bits() == 0,
{
    let a: u64 = x.bits % SIGN_BIT;
    let e: u64 = a / FRACTION_SPAN;
    let f: u64 = a % FRACTION_SPAN;
    proof {
        lemma2_to64();
    }
    if e == 0 {
        assert(f * 1 == f);
        (f, 0)
    } else {
        assert(a == (e - 1) * FRACTION_SPAN + (FRACTION_SPAN + f)) by (nonlinear_arith)
            requires
                a == FRACTION_SPAN * e + f,
        ;
        (FRACTION_SPAN + f, (e - 1) as i32)
    }
}

/// The double with the given sign and pattern.
fn assemble(negative: bool, pattern: u64) -> (r: Double)
    requires
        pattern < SIGN_BIT,
    ensures
        r == signed(negative, pattern as int),
        r.sign() == negative,
        r.magnitude_bits() == pattern,
{
    if negative {
        Double { bits: SIGN_BIT + pattern }
    } else {
        Double { bits: pattern }
    }
}

/// The exact product `(ma * 2^sa) * (mb * 2^sb)`, over the unit, is
/// `ma * mb` units of `2^(sa + sb - 1074)`.
#[verifier::rlimit(40)]
pub proof fn lemma_product_scales(pattern: int, ma: int, sa: int, mb: int, sb: int)
    requires
        0 <= sa,
        0 <= sb,
        nearest(
            pattern,
            ma * mb * pow2(up_shift(sa + sb - SCALE_EXPONENT)),
            pow2(down_shift(sa + sb - SCALE_EXPONENT)) as int,
        ),
    ensures
        nearest(pattern, (ma * pow2(sa as nat)) * (mb * pow2(sb as nat)), unit()),
{
    let e = sa + sb - SCALE_EXPONENT;
    let p = ma * mb;
    let n = p * pow2(up_shift(e));
    let d = pow2(down_shift(e)) as int;
    lemma_pow2_pos(down_shift(e));
    lemma_pow2_pos(SCALE_EXPONENT as nat);
    lemma_pow2_pos((sa + sb) as nat);
    lemma_pow2_adds(sa as nat, sb as nat);
    let target = (ma * pow2(sa as nat)) * (mb * pow2(sb as nat));
    assert(target == p * pow2((sa + sb) as nat)) by (nonlinear_arith)
        requires
            target == (ma * pow2(sa as nat)) * (mb * pow2(sb as nat)),
            pow2((sa + sb) as nat) == pow2(sa as nat) * pow2(sb as nat),
            p == ma * mb,
    ;
    if e >= 0 {
        let t = unit();
        lemma_pow2_adds(e as nat, SCALE_EXPONENT as nat);
        lemma2_to64();
        lemma_nearest_scales(pattern, n, d, t);
        assert(n * t == target) by (nonlinear_arith)
            requires
                n == p * pow2(e as nat),
                target == p * pow2((sa + sb) as nat),
                pow2((sa + sb) as nat) == pow2(e as nat) * t,
        ;
        assert(d * t == unit());
    } else {
        let t = pow2((sa + sb) as nat) as int;
        lemma_pow2_adds((-e) as nat, (sa + sb) as nat);
        lemma2_to64();
        lemma_nearest_scales(pattern, n, d, t);
        assert(n * t == target) by (nonlinear_arith)
            requires
                n == p * 1,
                target == p * t,
        ;
        assert(d * t == unit());
    }
}

/// A term more than 64 binades below another does not move it: the sum and
/// the difference both round to the larger term.
#[verifier::rlimit(40)]
pub proof fn lemma_far_term(mh: int, sh: int, ml: int, sl: int)
    requires
        FRACTION_SPAN <= mh < 2 * FRACTION_SPAN,
        0 <= ml < 2 * FRACTION_SPAN,
        0 <= sl,
        sl + 64 < sh <= 2045,
    ensures
        ({
            let pattern = sh * FRACTION_SPAN + mh;
            let high = mh * pow2(sh as nat);
            let low = ml * pow2(sl as nat);
            &&& 0 < pattern < INFINITY_BITS
            &&& 0 <= low < high
            &&& nearest(pattern, high + low, 1)
            &&& nearest(pattern, high - low, 1)
        }),
{
    let span = FRACTION_SPAN as int;
    let pattern = sh * span + mh;
    let t = pow2(sh as nat) as int;
    let half = pow2((sh - 1) as nat) as int;
    let high = mh * t;
    let low = ml * pow2(sl as nat);
    lemma2_to64();
    lemma2_to64_rest();
    lemma_pow2_pos(sl as nat);
    lemma_pow2_pos(sh as nat);
    lemma_pow2_unfold(sh as nat);
    assert(0 < pattern < INFINITY_BITS) by (nonlinear_arith)
        requires
            pattern == sh * span + mh,
            span == 0x10_0000_0000_0000,
            span <= mh < 2 * span,
            0 < sh <= 2045,
    ;
    // low < 2^(53 + sl) <= 2^(sh - 12), so 4096 * low < 2^sh
    lemma_pow2_adds(53, sl as nat);
    lemma_pow2_adds(12, (sh - 12) as nat);
    if 53 + sl < sh - 12 {
        lemma_pow2_strictly_increases((53 + sl) as nat, (sh - 12) as nat);
    }
    assert(0 <= low && 4096 * low < t) by (nonlinear_arith)
        requires
            low == ml * pow2(sl as nat),
            0 <= ml < pow2(53),
            pow2(sl as nat) > 0,
            pow2(53) * pow2(sl as nat) <= pow2((sh - 12) as nat),
            t == 4096 * pow2((sh - 12) as nat),
    ;
    assert(high >= t) by (nonlinear_arith)
        requires
            high == mh * t,
            mh >= 1,
            t > 0,
    ;
    lemma_pattern_value(sh, mh);
    lemma_pattern_value(sh, mh + 1);
    assert(pattern + 1 == sh * span + (mh + 1));
    assert((mh + 1) * t == high + t) by (nonlinear_arith)
        requires
            high == mh * t,
    ;
    assert(pattern_magnitude(pattern) * 1 == high);
    assert(pattern_magnitude(pattern + 1) * 1 == high + t);
    lemma_nearest_of_neighbours(pattern, high + low, 1);
    if low == 0 {
        lemma_nearest_exact(pattern, 1);
    } else {
        if mh > span {
            lemma_pattern_value(sh, mh - 1);
            assert(pattern - 1 == sh * span + (mh - 1));
            assert((mh - 1) * t == high - t) by (nonlinear_arith)
                requires
                    high == mh * t,
            ;
            assert(pattern_magnitude(pattern - 1) * 1 == high - t);
        } else {
            lemma_pattern_value(sh - 1, 2 * span - 1);
            assert(pattern - 1 == (sh - 1) * span + (2 * span - 1)) by (nonlinear_arith)
                requires
                    pattern == sh * span + mh,
                    mh == span,
            ;
            assert((2 * span - 1) * half == high - half) by (nonlinear_arith)
                requires
                    high == mh * t,
                    mh == span,
                    t == 2 * half,
            ;
            assert(pattern_magnitude(pattern - 1) * 1 == high - half);
        }
        lemma_nearest_of_neighbours(pattern - 1, high - low, 1);
    }
}

/// The sum of two finite numbers of magnitudes `mh * 2^sh` and `ml * 2^sl`,
/// each negative where its flag says so, the first with the exponent that is
/// not the smaller: the sign and the pattern of the rounded sum.
#[verifier::rlimit(40)]
fn add_parts(nh: bool, mh: u64, sh: i32, nl: bool, ml: u64, sl: i32) -> (r: (bool, u64))
    requires
        mh < 2 * FRACTION_SPAN,
        ml < 2 * FRACTION_SPAN,
        0 <= sl <= sh <= 2045,
        mh >= FRACTION_SPAN || sh == 0,
    ensures
        ({
            let exact = with_sign(nh, mh * pow2(sh as nat)) + with_sign(nl, ml * pow2(sl as nat));
            &&& r.1 <= INFINITY_BITS
            &&& exact == 0 ==> r.1 == 0 && r.0 == (nh && nl)
            &&& exact > 0 ==> !r.0 && nearest(r.1 as int, exact, 1)
            &&& exact < 0 ==> r.0 && nearest(r.1 as int, -exact, 1)
        }),
{
    let ghost high = mh * pow2(sh as nat);
    let ghost low = ml * pow2(sl as nat);
    proof {
        lemma_pow2_pos(sl as nat);
        lemma_pow2_pos(sh as nat);
        lemma2_to64();
        assert(high >= 0 && low >= 0 && (mh > 0 ==> high > 0) && (ml > 0 ==> low > 0) && (mh == 0
            ==> high == 0) && (ml == 0 ==> low == 0)) by (nonlinear_arith)
            requires
                high == mh * pow2(sh as nat),
                low == ml * pow2(sl as nat),
                pow2(sh as nat) > 0,
                pow2(sl as nat) > 0,
                mh >= 0,
                ml >= 0,
        ;
    }
    let shift: i32 = sh - sl;
    if shift > 64 {
        proof {
            lemma_far_term(mh as int, sh as int, ml as int, sl as int);
        }
        assert(sh * FRACTION_SPAN <= 2045 * FRACTION_SPAN) by (nonlinear_arith)
            requires
                0 <= sh <= 2045,
        ;
        return (nh, (sh as u64) * FRACTION_SPAN + mh);
    }
    let scale: u128 = two_to_wide(shift as u32);
    proof {
        lemma_pow2_adds(shift as nat, sl as nat);
        if shift < 64 {
            lemma_pow2_strictly_increases(shift as nat, 64);
        }
        assert(mh * scale < 0x20_0000_0000_0000_0000_0000_0000_0000) by (nonlinear_arith)
            requires
                mh < 0x20_0000_0000_0000,
                0 < scale <= 0x1_0000_0000_0000_0000,
        ;
        assert(high == (mh * scale) * pow2(sl as nat)) by (nonlinear_arith)
            requires
                high == mh * pow2(sh as nat),
                pow2(sh as nat) == scale * pow2(sl as nat),
        ;
    }
    let wide: u128 = (mh as u128) * scale;
    let small: u128 = ml as u128;
    let (negative, p): (bool, u128) = if nh == nl {
        (nh, wide + small)
    } else if wide >= small {
        (nh, wide - small)
    } else {
        (nl, small - wide)
    };
    proof {
        let t = pow2(sl as nat) as int;
        assert((wide + small) * t == high + low && (wide - small) * t == high - low && (small
            - wide) * t == low - high) by (nonlinear_arith)
            requires
                high == wide * t,
                low == small * t,
        ;
        assert((p == 0) == (p * t == 0) && p * t >= 0) by (nonlinear_arith)
            requires
                p >= 0,
                t > 0,
        ;
    }
    if p == 0 {
        return (nh && nl, 0);
    }
    let pattern: u64 = round_to_pattern(p, 0, 1, sl);
    proof {
        assert((p * 1 + 0) * pow2(up_shift(sl as int)) == p * pow2(sl as nat));
        assert(1 * pow2(down_shift(sl as int)) == 1);
    }
    (negative, pattern)
}

/// A double is its sign with its pattern below the sign.
pub proof fn lemma_signed_parts(x: Double)
    ensures
        signed(x.sign(), x.magnitude_bits()) == x,
        pattern_magnitude(x.magnitude_bits()) == x.magnitude(),
        0 <= x.magnitude_bits() < SIGN_BIT,
        !x.nan() <==> x.magnitude_bits() <= INFINITY_BITS,
        x.infinite() <==> x.magnitude_bits() == INFINITY_BITS,
{
}

/// Multiplication does not depend on the order of its operands.
pub proof fn lemma_product_commutes(a: Double, b: Double)
    ensures
        product(a, b) == product(b, a),
{
    assert(a.magnitude() * b.magnitude() == b.magnitude() * a.magnitude()) by (nonlinear_arith);
}

/// One times a number is that number.
pub proof fn lemma_product_one(x: Double)
    requires
        !x.nan(),
    ensures
        product(x, Double { bits: ONE_BITS }) == x,
{
    let one = Double { bits: ONE_BITS };
    lemma_one_scaled();
    lemma_signed_parts(x);
    lemma_pow2_pos(SCALE_EXPONENT as nat);
    assert(!one.nan() && !one.infinite() && !one.sign() && one.magnitude() == unit());
    if !x.infinite() {
        lemma_nearest_exact(x.magnitude_bits(), unit());
        lemma_rounded_is(x.magnitude_bits(), x.magnitude() * unit(), unit());
    }
}

/// A number over one is that number.
pub proof fn lemma_quotient_one(x: Double)
    requires
        !x.nan(),
    ensures
        quotient(x, Double { bits: ONE_BITS }) == x,
{
    let one = Double { bits: ONE_BITS };
    lemma_one_scaled();
    lemma_signed_parts(x);
    lemma_pow2_pos(SCALE_EXPONENT as nat);
    assert(!one.nan() && !one.infinite() && !one.sign() && one.magnitude() == unit());
    assert(one.magnitude_bits() != 0);
    if !x.infinite() {
        lemma_nearest_exact(x.magnitude_bits(), unit());
        lemma_rounded_is(x.magnitude_bits(), x.magnitude() * unit(), unit());
    }
}

/// Zero times a finite number is zero, with the sign of the product.
pub proof fn lemma_product_zero(z: Double, x: Double)
    requires
        z.magnitude_bits() == 0,
        x.finite(),
    ensures
        product(z, x) == signed(z.sign() != x.sign(), 0),
        product(x, z) == signed(z.sign() != x.sign(), 0),
{
    lemma_magnitude_sign(z);
    lemma_pow2_pos(SCALE_EXPONENT as nat);
    lemma_pattern_zero(0);
    lemma_nearest_exact(0, unit());
    assert(z.magnitude() * x.magnitude() == 0 && x.magnitude() * z.magnitude() == 0)
        by (nonlinear_arith)
        requires
            z.magnitude() == 0,
    ;
    assert(pattern_magnitude(0) * unit() == 0);
    lemma_rounded_is(0, 0, unit());
}

/// What rounds from at least one unit is not zero.
pub proof fn lemma_nearest_positive(b: int, n: int, d: int)
    requires
        d > 0,
        n >= d,
        nearest(b, n, d),
    ensures
        b >= 1,
{
    if b == 0 {
        lemma_pattern_zero(0);
        lemma_pattern_value(0, 1);
        assert(pattern_magnitude(1) * d == d) by (nonlinear_arith)
            requires
                pattern_magnitude(1) == 1,
        ;
        assert(pattern_magnitude(0) * d == 0);
        assert(gap(0, n, d) == n);
        assert(gap(1, n, d) == n - d);
        assert(gap(0, n, d) <= gap(1, n, d));
    }
}

/// The product of two finite numbers has the sign of the product and the
/// pattern to which the exact product rounds.
pub proof fn lemma_product_value(a: Double, b: Double)
    requires
        a.finite(),
        b.finite(),
    ensures
        nearest(rounded(a.magnitude() * b.magnitude(), unit()), a.magnitude() * b.magnitude(), unit()),
        !product(a, b).nan(),
        product(a, b).sign() == (a.sign() != b.sign()),
        product(a, b).magnitude_bits() == rounded(a.magnitude() * b.magnitude(), unit()),
{
    lemma_pow2_pos(SCALE_EXPONENT as nat);
    lemma_magnitude_sign(a);
    lemma_magnitude_sign(b);
    lemma_mul_nonnegative(a.magnitude(), b.magnitude());
    lemma_rounding_exists(a.magnitude() * b.magnitude(), unit());
    let pattern = rounded(a.magnitude() * b.magnitude(), unit());
    lemma_signed_parts(signed(a.sign() != b.sign(), pattern));
    assert(signed(true, pattern).bits == SIGN_BIT + pattern);
    assert(signed(false, pattern).bits == pattern);
}

/// A number that is not negative, plus zero, is that number.
pub proof fn lemma_total_right_zero(x: Double)
    requires
        !x.nan(),
        !x.sign(),
    ensures
        total(x, Double { bits: ZERO_BITS }) == x,
{
    let zero = Double { bits: ZERO_BITS };
    lemma_signed_parts(x);
    lemma_magnitude_sign(x);
    assert(zero.magnitude_bits() == 0 && !zero.sign() && !zero.nan() && !zero.infinite());
    lemma_magnitude_sign(zero);
    if !x.infinite() {
        lemma_nearest_exact(x.magnitude_bits(), 1);
        assert(x.magnitude() * 1 == x.magnitude());
        if x.magnitude() != 0 {
            lemma_rounded_is(x.magnitude_bits(), x.magnitude(), 1);
        }
    }
}

/// A positive finite number plus itself is twice the number, exactly,
/// wherever the sum is finite.
pub proof fn lemma_doubling(s: Double)
    requires
        s.finite(),
        !s.sign(),
        s.magnitude_bits() != 0,
        total(s, s).finite(),
    ensures
        !total(s, s).sign(),
        total(s, s).magnitude() == 2 * s.magnitude(),
        s.magnitude() > 0,
{
    let span = FRACTION_SPAN as int;
    let low = s.magnitude_bits();
    let e = low / span;
    let f = low % span;
    let n = 2 * s.magnitude();
    lemma_magnitude_sign(s);
    lemma_signed_parts(s);
    lemma2_to64();
    let twice = if e == 0 {
        2 * low
    } else {
        low + span
    };
    if e == 0 {
        lemma_pattern_value(0, low);
        lemma_pattern_value(0, 2 * low);
        assert(low * 1 == low && (2 * low) * 1 == 2 * low);
    } else {
        lemma_pattern_value(e - 1, span + f);
        lemma_pattern_value(e, span + f);
        lemma_pow2_unfold(e as nat);
        assert(low == (e - 1) * span + (span + f)) by (nonlinear_arith)
            requires
                low == span * e + f,
        ;
        assert(twice == e * span + (span + f)) by (nonlinear_arith)
            requires
                twice == low + span,
                low == span * e + f,
        ;
        assert((span + f) * (2 * pow2((e - 1) as nat)) == 2 * ((span + f) * pow2((e - 1) as nat)))
            by (nonlinear_arith);
    }
    assert(pattern_magnitude(twice) == n);
    assert(pattern_magnitude(twice) * 1 == n);
    assert(s.scaled() + s.scaled() == n);
    if twice >= INFINITY_BITS {
        lemma_overflow_case(twice, n, 1);
        lemma_rounded_is(INFINITY_BITS as int, n, 1);
        assert(total(s, s) == signed(false, INFINITY_BITS as int));
        assert(false);
    }
    lemma_nearest_exact(twice, 1);
    lemma_rounded_is(twice, n, 1);
    lemma_signed_parts(signed(false, twice));
}

/// A finite number over twice that number is one half, with the sign of the
/// quotient.
pub proof fn lemma_half_quotient(s: Double, t: Double)
    requires
        s.finite(),
        t.finite(),
        s.magnitude() > 0,
        t.magnitude() == 2 * s.magnitude(),
    ensures
        quotient(s, t) == signed(s.sign() != t.sign(), HALF_BITS as int),
{
    let span = FRACTION_SPAN as int;
    let half = HALF_BITS as int;
    let d = t.magnitude();
    let n = s.magnitude() * unit();
    lemma_magnitude_sign(t);
    lemma2_to64();
    lemma2_to64_rest();
    assert(half == 1022 * span + 0);
    lemma_pattern_value(1021, span);
    assert(half == 1021 * span + span);
    lemma_pow2_adds(52, 1021);
    lemma_pow2_unfold(1074);
    assert(pattern_magnitude(half) == pow2(1073));
    assert(pattern_magnitude(half) * d == n) by (nonlinear_arith)
        requires
            pattern_magnitude(half) == pow2(1073),
            d == 2 * s.magnitude(),
            n == s.magnitude() * unit(),
            unit() == 2 * pow2(1073),
    ;
    lemma_nearest_exact(half, d);
    lemma_rounded_is(half, n, d);
}

/// A number above zero times a finite number of at least one is above
/// zero: the product cannot be rounded away.
pub proof fn lemma_product_stays_positive(a: Double, b: Double, r: Double)
    requires
        a.positive(),
        b.finite(),
        !b.sign(),
        b.magnitude() >= unit(),
        r == product(a, b),
        a.finite() ==> nearest(r.magnitude_bits(), a.magnitude() * b.magnitude(), unit()),
    ensures
        r.positive(),
{
    lemma_pow2_pos(SCALE_EXPONENT as nat);
    lemma_magnitude_sign(a);
    lemma_magnitude_sign(b);
    lemma_magnitude_sign(r);
    lemma_signed_parts(r);
    if a.finite() {
        assert(a.magnitude() * b.magnitude() >= unit()) by (nonlinear_arith)
            requires
                a.magnitude() >= 1,
                b.magnitude() >= unit(),
                unit() > 0,
        ;
        lemma_nearest_positive(
            r.magnitude_bits(),
            a.magnitude() * b.magnitude(),
            unit(),
        );
        let pattern = rounded(a.magnitude() * b.magnitude(), unit());
        lemma_rounded_is(r.magnitude_bits(), a.magnitude() * b.magnitude(), unit());
        assert(signed(false, pattern).magnitude_bits() == pattern);
    } else {
        assert(r == signed(false, INFINITY_BITS as int));
    }
}

/// The doubles two, pi and two pi are finite, positive and at least one.
pub proof fn lemma_circle_constants()
    ensures
        (Double { bits: TWO_BITS }).finite() && !(Double { bits: TWO_BITS }).sign() && (Double {
            bits: TWO_BITS,
        }).magnitude() >= unit(),
        (Double { bits: PI_BITS }).finite() && !(Double { bits: PI_BITS }).sign() && (Double {
            bits: PI_BITS,
        }).magnitude() >= unit(),
        (Double { bits: TWO_PI_BITS }).finite() && !(Double { bits: TWO_PI_BITS }).sign() && (
        Double { bits: TWO_PI_BITS }).magnitude() >= unit(),
{
    let two = Double { bits: TWO_BITS };
    let pi = Double { bits: PI_BITS };
    let two_pi = Double { bits: TWO_PI_BITS };
    lemma2_to64();
    lemma2_to64_rest();
    assert(two.exponent() == 1024 && pi.exponent() == 1024 && two_pi.exponent() == 1025);
    lemma_pow2_adds(52, 1022);
    lemma_pow2_strictly_increases(1022, 1023);
    lemma_pow2_strictly_increases(1022, 1024);
    assert(two.magnitude() >= unit()) by (nonlinear_arith)
        requires
            two.magnitude() == (FRACTION_SPAN + two.fraction()) * pow2(1023),
            two.fraction() >= 0,
            pow2(1023) > pow2(1022),
            unit() == FRACTION_SPAN * pow2(1022),
    ;
    assert(pi.magnitude() >= unit()) by (nonlinear_arith)
        requires
            pi.magnitude() == (FRACTION_SPAN + pi.fraction()) * pow2(1023),
            pi.fraction() >= 0,
            pow2(1023) > pow2(1022),
            unit() == FRACTION_SPAN * pow2(1022),
    ;
    assert(two_pi.magnitude() >= unit()) by (nonlinear_arith)
        requires
            two_pi.magnitude() == (FRACTION_SPAN + two_pi.fraction()) * pow2(1024),
            two_pi.fraction() >= 0,
            pow2(1024) > pow2(1022),
            unit() == FRACTION_SPAN * pow2(1022),
    ;
}

/// Zero plus a number is that number, unless the number is negative zero.
pub proof fn lemma_total_zero(x: Double)
    requires
        !x.nan(),
        x.bits != SIGN_BIT,
    ensures
        total(Double { bits: ZERO_BITS }, x) == x,
{
    let zero = Double { bits: ZERO_BITS };
    lemma_signed_parts(x);
    lemma_magnitude_sign(x);
    assert(zero.magnitude_bits() == 0 && !zero.sign() && !zero.nan() && !zero.infinite());
    lemma_magnitude_sign(zero);
    if !x.infinite() {
        lemma_nearest_exact(x.magnitude_bits(), 1);
        assert(x.magnitude() * 1 == x.magnitude());
        if x.magnitude() != 0 {
            lemma_rounded_is(x.magnitude_bits(), x.magnitude(), 1);
        }
    }
}

/// The exact quotient `(ma * 2^sa) / (mb * 2^sb)`, in units, is
/// `ma * 2^(la + 64) / mb` units of `2^(sa - la - sb + 1010)`.
#[verifier::rlimit(40)]
pub proof fn lemma_quotient_scales(pattern: int, ma: int, sa: int, la: int, mb: int, sb: int)
    requires
        0 <= sa,
        0 <= sb,
        0 <= la,
        0 < mb,
        0 <= ma,
        nearest(
            pattern,
            (ma * pow2((la + 64) as nat)) * pow2(up_shift(sa - la - sb + 1010)),
            mb * pow2(down_shift(sa - la - sb + 1010)),
        ),
    ensures
        mb * pow2(sb as nat) > 0,
        nearest(pattern, (ma * pow2(sa as nat)) * unit(), mb * pow2(sb as nat)),
{
    let e = sa - la - sb + 1010;
    let up = pow2(up_shift(e)) as int;
    let down = pow2(down_shift(e)) as int;
    let n1 = (ma * pow2((la + 64) as nat)) * up;
    let d1 = mb * down;
    let n = (ma * pow2(sa as nat)) * unit();
    let d = mb * pow2(sb as nat);
    let t1 = pow2(sb as nat) as int;
    let t2 = down;
    lemma_pow2_pos(sb as nat);
    lemma_pow2_pos(down_shift(e));
    // 2^(la + 64) * 2^up * 2^sb == 2^sa * 2^1074 * 2^down
    lemma_pow2_adds((la + 64) as nat, up_shift(e));
    lemma_pow2_adds((la + 64) as nat + up_shift(e), sb as nat);
    lemma_pow2_adds(sa as nat, SCALE_EXPONENT as nat);
    lemma_pow2_adds((sa + SCALE_EXPONENT) as nat, down_shift(e));
    assert((la + 64) + up_shift(e) + sb == sa + SCALE_EXPONENT + down_shift(e));
    let big = pow2(((la + 64) + up_shift(e) + sb) as nat) as int;
    assert(d > 0 && d1 > 0) by (nonlinear_arith)
        requires
            d == mb * t1,
            d1 == mb * down,
            mb > 0,
            t1 > 0,
            down > 0,
    ;
    assert(n1 * t1 == ma * big) by (nonlinear_arith)
        requires
            n1 == (ma * pow2((la + 64) as nat)) * up,
            big == (pow2((la + 64) as nat) * up) * t1,
    ;
    assert(n * t2 == ma * big) by (nonlinear_arith)
        requires
            n == (ma * pow2(sa as nat)) * unit(),
            big == (pow2(sa as nat) * unit()) * t2,
    ;
    assert(d1 * t1 == d * t2) by (nonlinear_arith)
        requires
            d1 == mb * down,
            d == mb * t1,
            t2 == down,
    ;
    lemma_nearest_scales(pattern, n1, d1, t1);
    lemma_nearest_unscales(pattern, n, d, t2);
}

impl Double {
    /// The value with the other sign.
    pub open spec fn negated(self) -> Double {
        Double {
            bits: if self.bits >= SIGN_BIT {
                (self.bits - SIGN_BIT) as u64
            } else {
                (self.bits + SIGN_BIT) as u64
            },
        }
    }

    /// The value with the other sign.
    pub fn negate(&self) -> (r: Double)
        ensures
            r == self.negated(),
    {
        if self.bits >= SIGN_BIT {
            Double { bits: self.bits - SIGN_BIT }
        } else {
            Double { bits: self.bits + SIGN_BIT }
        }
    }

    /// `self + other`, rounded to the nearest double.
    #[verifier::rlimit(40)]
    pub fn plus(&self, other: &Double) -> (r: Double)
        ensures
            r == total(*self, *other),
    {
        if self.is_nan() || other.is_nan() {
            return Double { bits: NAN_BITS };
        }
        let na: bool = self.bits >= SIGN_BIT;
        let nb: bool = other.bits >= SIGN_BIT;
        if !self.is_finite() {
            if !other.is_finite() && na != nb {
                return Double { bits: NAN_BITS };
            }
            return assemble(na, INFINITY_BITS);
        }
        if !other.is_finite() {
            return assemble(nb, INFINITY_BITS);
        }
        let (ma, sa) = parts(self);
        let (mb, sb) = parts(other);
        let (negative, pattern): (bool, u64) = if sa >= sb {
            add_parts(na, ma, sa, nb, mb, sb)
        } else {
            add_parts(nb, mb, sb, na, ma, sa)
        };
        proof {
            let exact = self.scaled() + other.scaled();
            if exact > 0 {
                lemma_rounded_is(pattern as int, exact, 1);
            } else if exact < 0 {
                lemma_rounded_is(pattern as int, -exact, 1);
            }
        }
        assemble(negative, pattern)
    }

    /// `self - other`, rounded to the nearest double.
    pub fn minus(&self, other: &Double) -> (r: Double)
        ensures
            r == total(*self, other.negated()),
    {
        let opposite: Double = other.negate();
        self.plus(&opposite)
    }

    /// `self / other`, rounded to the nearest double.
    #[verifier::rlimit(40)]
    pub fn over(&self, other: &Double) -> (r: Double)
        ensures
            r == quotient(*self, *other),
    {
        if self.is_nan() || other.is_nan() {
            return Double { bits: NAN_BITS };
        }
        let negative: bool = (self.bits >= SIGN_BIT) != (other.bits >= SIGN_BIT);
        if !self.is_finite() {
            if !other.is_finite() {
                return Double { bits: NAN_BITS };
            }
            return assemble(negative, INFINITY_BITS);
        }
        if !other.is_finite() {
            return assemble(negative, 0);
        }
        let (ma, sa) = parts(self);
        let (mb, sb) = parts(other);
        if mb == 0 {
            if ma == 0 {
                return Double { bits: NAN_BITS };
            }
            return assemble(negative, INFINITY_BITS);
        }
        proof {
            lemma_pow2_pos(sb as nat);
            assert(other.magnitude() > 0) by (nonlinear_arith)
                requires
                    other.magnitude() == mb * pow2(sb as nat),
                    mb > 0,
                    pow2(sb as nat) > 0,
            ;
        }
        if ma == 0 {
            proof {
                lemma_pattern_zero(0);
                lemma_nearest_exact(0, other.magnitude());
                assert(self.magnitude() * unit() == 0) by (nonlinear_arith)
                    requires
                        self.magnitude() == 0 * pow2(sa as nat),
                ;
                assert(pattern_magnitude(0) * other.magnitude() == 0);
                lemma_rounded_is(0, 0, other.magnitude());
            }
            return assemble(negative, 0);
        }
        let length: u32 = bit_length(ma as u128);
        proof {
            lemma2_to64();
            lemma2_to64_rest();
            if length > 53 {
                lemma_pow2_strictly_increases(53, (length - 1) as nat);
            }
        }
        let la: u32 = 53 - length;
        let lift: u128 = two_to_wide(la + 64);
        proof {
            // 2^116 <= ma * 2^(la + 64) < 2^117
            lemma_pow2_adds((length - 1) as nat, (la + 64) as nat);
            lemma_pow2_adds(length as nat, (la + 64) as nat);
            lemma_pow2_adds(64, 52);
            lemma_pow2_adds(64, 53);
            assert(pow2(116) <= ma * lift < pow2(117)) by (nonlinear_arith)
                requires
                    pow2((length - 1) as nat) <= ma < pow2(length as nat),
                    lift == pow2((la + 64) as nat),
                    lift > 0,
                    pow2((length - 1) as nat) * lift == pow2(116),
                    pow2(length as nat) * lift == pow2(117),
            ;
        }
        let wide: u128 = (ma as u128) * lift;
        let q: u128 = wide / (mb as u128);
        let rest: u128 = wide % (mb as u128);
        proof {
            vstd::arithmetic::div_mod::lemma_fundamental_div_mod(wide as int, mb as int);
            assert(wide == q * mb + rest) by (nonlinear_arith)
                requires
                    wide == mb * q + rest,
            ;
            assert(q >= 2 * FRACTION_SPAN && q <= wide) by (nonlinear_arith)
                requires
                    wide == q * mb + rest,
                    0 <= rest < mb,
                    0 < mb < 0x20_0000_0000_0000,
                    wide >= 0x10_0000_0000_0000_0000_0000_0000_0000,
                    q >= 0,
            ;
        }
        let e: i32 = sa - (la as i32) - sb + 1010;
        let pattern: u64 = round_to_pattern(q, rest as u64, mb, e);
        proof {
            lemma_quotient_scales(
                pattern as int,
                ma as int,
                sa as int,
                la as int,
                mb as int,
                sb as int,
            );
            lemma_rounded_is(pattern as int, self.magnitude() * unit(), other.magnitude());
        }
        assemble(negative, pattern)
    }

    /// `self * other`, rounded to the nearest double.
    #[verifier::rlimit(40)]
    pub fn times(&self, other: &Double) -> (r: Double)
        ensures
            r == product(*self, *other),
            self.finite() && other.finite() ==> nearest(
                r.magnitude_bits(),
                self.magnitude() * other.magnitude(),
                unit(),
            ),
    {
        if self.is_nan() || other.is_nan() {
            return Double { bits: NAN_BITS };
        }
        let negative: bool = (self.bits >= SIGN_BIT) != (other.bits >= SIGN_BIT);
        if !self.is_finite() || !other.is_finite() {
            if self.bits % SIGN_BIT == 0 || other.bits % SIGN_BIT == 0 {
                return Double { bits: NAN_BITS };
            }
            return assemble(negative, INFINITY_BITS);
        }
        let (ma, sa) = parts(self);
        let (mb, sb) = parts(other);
        proof {
            lemma_pow2_pos(SCALE_EXPONENT as nat);
        }
        if ma == 0 || mb == 0 {
            proof {
                lemma_magnitude_sign(*self);
                lemma_magnitude_sign(*other);
                lemma_pattern_zero(0);
                lemma_nearest_exact(0, unit());
                assert(self.magnitude() * other.magnitude() == 0) by (nonlinear_arith)
                    requires
                        self.magnitude() == 0 || other.magnitude() == 0,
                ;
                assert(pattern_magnitude(0) * unit() == 0);
                lemma_rounded_is(0, 0, unit());
            }
            return assemble(negative, 0);
        }
        assert(1 <= ma * mb < 0x400_0000_0000_0000_0000_0000_0000) by (nonlinear_arith)
            requires
                1 <= ma < 0x20_0000_0000_0000,
                1 <= mb < 0x20_0000_0000_0000,
        ;
        let p: u128 = (ma as u128) * (mb as u128);
        let e: i32 = sa + sb - 1074;
        let pattern: u64 = round_to_pattern(p, 0, 1, e);
        proof {
            assert((p * 1 + 0) * pow2(up_shift(e as int)) == ma * mb * pow2(up_shift(e as int)));
            assert(1 * pow2(down_shift(e as int)) == pow2(down_shift(e as int)));
            lemma_product_scales(pattern as int, ma as int, sa as int, mb as int, sb as int);
            lemma_rounded_is(pattern as int, self.magnitude() * other.magnitude(), unit());
        }
        assemble(negative, pattern)
    }
}

} // verus!
