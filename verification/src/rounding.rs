//! Rounding to the nearest double, ties to even.
//!
//! The bit patterns without a sign, from zero up to the pattern of infinity,
//! stand for magnitudes that grow with the pattern. An exact magnitude
//! `n / d`, in units of `2^-1074`, is rounded to the pattern whose magnitude
//! is nearest to it; of two that are equally near, to the even one. Infinity
//! stands where the next binade would start, so that what lies at or beyond
//! the midpoint between the largest finite magnitude and that point rounds
//! to infinity.
use crate::double::lemma_magnitude_of_increases;
use crate::double::magnitude_of;
use crate::double::FRACTION_SPAN;
use vstd::arithmetic::mul::*;
use vstd::arithmetic::power2::*;
use vstd::prelude::*;

verus! {

/// The bit pattern of positive infinity.
pub const INFINITY_BITS: u64 = 0x7FF0_0000_0000_0000;

/// The magnitude, in units of `2^-1074`, that the pattern `b` stands for.
pub open spec fn pattern_magnitude(b: int) -> int {
    magnitude_of(b / (FRACTION_SPAN as int), b % (FRACTION_SPAN as int))
}

/// How far the magnitude of pattern `b` is from `n / d`, times `d`.
pub open spec fn gap(b: int, n: int, d: int) -> int {
    if pattern_magnitude(b) * d >= n {
        pattern_magnitude(b) * d - n
    } else {
        n - pattern_magnitude(b) * d
    }
}

/// `b` is the pattern to which `n / d` rounds: none is nearer, and where
/// another is as near, `b` is even.
pub open spec fn nearest(b: int, n: int, d: int) -> bool {
    &&& 0 <= b <= INFINITY_BITS
    &&& forall|c: int| 0 <= c <= INFINITY_BITS ==> gap(b, n, d) <= #[trigger] gap(c, n, d)
    &&& forall|c: int|
        0 <= c <= INFINITY_BITS && c != b && #[trigger] gap(c, n, d) == gap(b, n, d) ==> b % 2
            == 0
}

/// The pattern to which `n / d` rounds.
pub open spec fn rounded(n: int, d: int) -> int {
    choose|b: int| nearest(b, n, d)
}

/// A larger pattern stands for a larger magnitude.
pub proof fn lemma_pattern_order(b: int, c: int)
    requires
        0 <= b < c,
    ensures
        pattern_magnitude(b) < pattern_magnitude(c),
{
    let span = FRACTION_SPAN as int;
    lemma_magnitude_of_increases(b / span, b % span, c / span, c % span);
}

/// Magnitudes are not negative, and zero is the magnitude of pattern zero.
pub proof fn lemma_pattern_zero(b: int)
    requires
        0 <= b,
    ensures
        pattern_magnitude(0) == 0,
        pattern_magnitude(b) >= 0,
{
    if b > 0 {
        lemma_pattern_order(0, b);
    }
}

/// Between two patterns the gap to `n / d` first falls and then rises: a
/// pattern below one that lies at or below `n / d` is farther away, and so is
/// a pattern above one that lies at or above it.
pub proof fn lemma_gap_order(b: int, c: int, n: int, d: int)
    requires
        0 <= b < c,
        d > 0,
    ensures
        pattern_magnitude(c) * d <= n ==> gap(b, n, d) > gap(c, n, d),
        pattern_magnitude(b) * d >= n ==> gap(c, n, d) > gap(b, n, d),
{
    lemma_pattern_order(b, c);
    assert(pattern_magnitude(b) * d < pattern_magnitude(c) * d) by (nonlinear_arith)
        requires
            pattern_magnitude(b) < pattern_magnitude(c),
            d > 0,
    ;
}

/// Where `n / d` lies between the magnitudes of two neighbouring patterns, it
/// rounds to the nearer of the two, and from the middle to the even one.
pub proof fn lemma_nearest_of_neighbours(b: int, n: int, d: int)
    requires
        d > 0,
        0 <= b < INFINITY_BITS,
        pattern_magnitude(b) * d <= n <= pattern_magnitude(b + 1) * d,
    ensures
        gap(b, n, d) < gap(b + 1, n, d) ==> nearest(b, n, d),
        gap(b, n, d) > gap(b + 1, n, d) ==> nearest(b + 1, n, d),
        gap(b, n, d) == gap(b + 1, n, d) && b % 2 == 0 ==> nearest(b, n, d),
        gap(b, n, d) == gap(b + 1, n, d) && b % 2 != 0 ==> nearest(b + 1, n, d),
{
    assert forall|c: int| 0 <= c < b implies #[trigger] gap(c, n, d) > gap(b, n, d) by {
        lemma_gap_order(c, b, n, d);
    }
    assert forall|c: int| b + 1 < c <= INFINITY_BITS implies #[trigger] gap(c, n, d) > gap(
        b + 1,
        n,
        d,
    ) by {
        lemma_gap_order(b + 1, c, n, d);
    }
    lemma_gap_order(b, b + 1, n, d);
}

/// What lies at or beyond the magnitude of infinity rounds to infinity.
pub proof fn lemma_nearest_overflows(n: int, d: int)
    requires
        d > 0,
        pattern_magnitude(INFINITY_BITS as int) * d <= n,
    ensures
        nearest(INFINITY_BITS as int, n, d),
{
    assert forall|c: int| 0 <= c < INFINITY_BITS implies #[trigger] gap(c, n, d) > gap(
        INFINITY_BITS as int,
        n,
        d,
    ) by {
        lemma_gap_order(c, INFINITY_BITS as int, n, d);
    }
}

/// A magnitude that a pattern stands for rounds to that pattern.
pub proof fn lemma_nearest_exact(b: int, d: int)
    requires
        d > 0,
        0 <= b <= INFINITY_BITS,
    ensures
        nearest(b, pattern_magnitude(b) * d, d),
{
    let n = pattern_magnitude(b) * d;
    assert forall|c: int| 0 <= c <= INFINITY_BITS && c != b implies #[trigger] gap(c, n, d) > gap(
        b,
        n,
        d,
    ) by {
        if c < b {
            lemma_gap_order(c, b, n, d);
        } else {
            lemma_gap_order(b, c, n, d);
        }
    }
}

/// Rounding has one result.
pub proof fn lemma_nearest_unique(b: int, c: int, n: int, d: int)
    requires
        d > 0,
        nearest(b, n, d),
        nearest(c, n, d),
    ensures
        b == c,
{
    if b != c {
        let (low, high) = if b < c {
            (b, c)
        } else {
            (c, b)
        };
        assert(gap(b, n, d) <= gap(c, n, d) && gap(c, n, d) <= gap(b, n, d));
        assert(b % 2 == 0 && c % 2 == 0);
        let between = low + 1;
        assert(low < between < high);
        lemma_gap_order(low, between, n, d);
        lemma_gap_order(between, high, n, d);
        lemma_pattern_order(low, between);
        lemma_pattern_order(between, high);
        let (ml, mb, mh) = (
            pattern_magnitude(low) * d,
            pattern_magnitude(between) * d,
            pattern_magnitude(high) * d,
        );
        assert(ml < mb < mh) by (nonlinear_arith)
            requires
                pattern_magnitude(low) < pattern_magnitude(between) < pattern_magnitude(high),
                d > 0,
                ml == pattern_magnitude(low) * d,
                mb == pattern_magnitude(between) * d,
                mh == pattern_magnitude(high) * d,
        ;
        assert(gap(between, n, d) >= gap(low, n, d));
        assert(false);
    }
}

/// The largest pattern up to `b` whose magnitude is not above `n / d`.
pub open spec fn floor_pattern(n: int, d: int, b: int) -> int
    decreases b,
{
    if b <= 0 {
        0
    } else if pattern_magnitude(b) * d <= n {
        b
    } else {
        floor_pattern(n, d, b - 1)
    }
}

/// `floor_pattern` is what its name says.
pub proof fn lemma_floor_pattern(n: int, d: int, b: int)
    requires
        n >= 0,
        d > 0,
        b >= 0,
    ensures
        0 <= floor_pattern(n, d, b) <= b,
        pattern_magnitude(floor_pattern(n, d, b)) * d <= n,
        floor_pattern(n, d, b) < b ==> pattern_magnitude(floor_pattern(n, d, b) + 1) * d > n,
    decreases b,
{
    if b <= 0 {
        lemma_pattern_zero(0);
        assert(pattern_magnitude(0) * d == 0) by (nonlinear_arith)
            requires
                pattern_magnitude(0) == 0,
        ;
    } else if pattern_magnitude(b) * d > n {
        lemma_floor_pattern(n, d, b - 1);
    }
}

/// Every magnitude rounds somewhere: `rounded` is the pattern nearest to
/// `n / d`.
pub proof fn lemma_rounding_exists(n: int, d: int)
    requires
        n >= 0,
        d > 0,
    ensures
        nearest(rounded(n, d), n, d),
{
    let low = floor_pattern(n, d, INFINITY_BITS as int);
    lemma_floor_pattern(n, d, INFINITY_BITS as int);
    if low == INFINITY_BITS {
        lemma_nearest_overflows(n, d);
    } else {
        lemma_nearest_of_neighbours(low, n, d);
        assert(nearest(low, n, d) || nearest(low + 1, n, d));
    }
}

/// Whatever is known to round to `b` is what `rounded` gives.
pub proof fn lemma_rounded_is(b: int, n: int, d: int)
    requires
        d > 0,
        nearest(b, n, d),
    ensures
        rounded(n, d) == b,
{
    lemma_nearest_unique(b, rounded(n, d), n, d);
}

/// Rounding `n / d` is rounding `(n * t) / (d * t)`.
pub proof fn lemma_nearest_scales(b: int, n: int, d: int, t: int)
    requires
        d > 0,
        t > 0,
        nearest(b, n, d),
    ensures
        nearest(b, n * t, d * t),
{
    assert forall|c: int| 0 <= c <= INFINITY_BITS implies #[trigger] gap(c, n * t, d * t) == gap(
        c,
        n,
        d,
    ) * t by {
        let m = pattern_magnitude(c);
        assert(m * (d * t) == (m * d) * t) by (nonlinear_arith);
        assert((m * d >= n) == ((m * d) * t >= n * t)) by (nonlinear_arith)
            requires
                t > 0,
        ;
        assert((m * d - n) * t == (m * d) * t - n * t && (n - m * d) * t == n * t - (m * d) * t)
            by (nonlinear_arith);
    }
    assert forall|c: int| 0 <= c <= INFINITY_BITS implies gap(b, n * t, d * t) <= #[trigger] gap(
        c,
        n * t,
        d * t,
    ) by {
        assert(gap(b, n, d) <= gap(c, n, d));
        assert(gap(b, n, d) * t <= gap(c, n, d) * t) by (nonlinear_arith)
            requires
                gap(b, n, d) <= gap(c, n, d),
                t > 0,
        ;
    }
    assert forall|c: int|
        0 <= c <= INFINITY_BITS && c != b && #[trigger] gap(c, n * t, d * t) == gap(
            b,
            n * t,
            d * t,
        ) implies b % 2 == 0 by {
        assert(gap(c, n, d) == gap(b, n, d)) by (nonlinear_arith)
            requires
                gap(c, n, d) * t == gap(b, n, d) * t,
                t > 0,
        ;
    }
}

/// The pattern with exponent field `s + 1` (or `s`, where `q` has no leading
/// bit) and the low bits of `q` as fraction stands for `q * 2^s`. The sum
/// carries into the exponent where `q` is `2^53`.
#[verifier::rlimit(40)]
pub proof fn lemma_pattern_value(s: int, q: int)
    requires
        0 <= s,
        0 <= q <= 2 * FRACTION_SPAN,
        q >= FRACTION_SPAN || s == 0,
    ensures
        pattern_magnitude(s * FRACTION_SPAN + q) == q * pow2(s as nat),
{
    let span = FRACTION_SPAN as int;
    let b = s * span + q;
    lemma2_to64();
    if q < span {
        assert(b == q);
        assert(b / span == 0 && b % span == q);
        assert(q * 1 == q);
    } else if q < 2 * span {
        assert(b == (s + 1) * span + (q - span)) by (nonlinear_arith)
            requires
                b == s * span + q,
        ;
        vstd::arithmetic::div_mod::lemma_fundamental_div_mod_converse(b, span, s + 1, q - span);
    } else {
        assert(b == (s + 2) * span + 0) by (nonlinear_arith)
            requires
                b == s * span + q,
                q == 2 * span,
        ;
        vstd::arithmetic::div_mod::lemma_fundamental_div_mod_converse(b, span, s + 2, 0);
        lemma_pow2_unfold((s + 1) as nat);
        assert((span + 0) * (2 * pow2(s as nat)) == (2 * span) * pow2(s as nat))
            by (nonlinear_arith);
    }
}

/// Two to the power `k`, in 128 bits.
pub fn two_to_wide(k: u32) -> (r: u128)
    requires
        k <= 127,
    ensures
        r == pow2(k as nat),
        r >= 1,
{
    let mut r: u128 = 1;
    let mut i: u32 = 0;
    proof {
        lemma2_to64();
    }
    while i < k
        invariant
            i <= k <= 127,
            r == pow2(i as nat),
            r >= 1,
        decreases k - i,
    {
        proof {
            lemma_pow2_unfold((i + 1) as nat);
            lemma_pow2_wide();
            if i + 1 < 127 {
                lemma_pow2_strictly_increases((i + 1) as nat, 127);
            }
        }
        r = r * 2;
        i += 1;
    }
    r
}

/// The powers of two at the ends of 128 bits.
pub proof fn lemma_pow2_wide()
    ensures
        pow2(127) == 0x8000_0000_0000_0000_0000_0000_0000_0000,
        pow2(128) == 0x1_0000_0000_0000_0000_0000_0000_0000_0000,
{
    lemma2_to64();
    lemma2_to64_rest();
    lemma_pow2_adds(64, 63);
    lemma_pow2_adds(64, 64);
}

/// The number of bits of `p`: the least `r` with `p < 2^r`.
#[verifier::rlimit(40)]
pub fn bit_length(p: u128) -> (r: u32)
    ensures
        r <= 128,
        p < pow2(r as nat),
        p == 0 ==> r == 0,
        p > 0 ==> r >= 1 && pow2((r - 1) as nat) <= p,
{
    let mut t: u128 = p;
    let mut l: u32 = 0;
    proof {
        lemma2_to64();
    }
    while t > 0
        invariant
            l <= 128,
            t * pow2(l as nat) <= p < (t + 1) * pow2(l as nat),
            l == 0 ==> t == p,
            l > 0 ==> pow2((l - 1) as nat) <= p,
            l == 128 ==> t == 0,
        decreases t,
    {
        proof {
            let w = pow2(l as nat) as int;
            lemma_pow2_pos(l as nat);
            lemma_pow2_unfold((l + 1) as nat);
            lemma_pow2_wide();
            let half = (t / 2) as int;
            assert(half * (2 * w) <= t * w && (t + 1) * w <= (half + 1) * (2 * w)) by (nonlinear_arith)
                requires
                    2 * half <= t <= 2 * half + 1,
                    w > 0,
            ;
            assert(w <= t * w) by (nonlinear_arith)
                requires
                    t >= 1,
                    w > 0,
            ;
            if l + 1 == 128 {
                lemma_pow2_strictly_increases(l as nat, 128);
                assert(half * (2 * w) <= p);
                assert(half == 0) by (nonlinear_arith)
                    requires
                        half * (2 * w) <= p,
                        p < 2 * w,
                        half >= 0,
                        w > 0,
                ;
            }
            if l < 127 {
                lemma_pow2_strictly_increases(l as nat, 127);
            }
        }
        t = t / 2;
        l += 1;
    }
    proof {
        assert(1 * pow2(l as nat) == pow2(l as nat));
        if l > 0 {
            lemma_pow2_pos((l - 1) as nat);
        }
    }
    l
}

/// The exponent of the factor two in the numerator of `2^e`.
pub open spec fn up_shift(e: int) -> nat {
    if e >= 0 {
        e as nat
    } else {
        0
    }
}

/// The exponent of the factor two in the denominator of `2^e`.
pub open spec fn down_shift(e: int) -> nat {
    if e < 0 {
        (-e) as nat
    } else {
        0
    }
}

/// The exact magnitude is `(p + r / m) * 2^e`. Cutting the low `k` bits off
/// `p` leaves `q` units of `2^(e + k)` and a remainder. The magnitude lies
/// between the patterns of `q` and `q + 1`; it is nearer to the first where
/// the remainder is below half of what was cut off, and in the middle where
/// the remainder is that half and `r` is zero.
#[verifier::rlimit(40)]
pub proof fn lemma_round_shifted(p: int, r: int, m: int, e: int, k: int, q: int, rem: int)
    requires
        k >= 1,
        e + k >= 0,
        p == q * pow2(k as nat) + rem,
        0 <= rem < pow2(k as nat),
        0 <= q < 2 * FRACTION_SPAN,
        q >= FRACTION_SPAN || e + k == 0,
        0 <= r < m,
    ensures
        ({
            let b = (e + k) * FRACTION_SPAN + q;
            let n = (p * m + r) * pow2(up_shift(e));
            let d = m * pow2(down_shift(e));
            &&& d > 0
            &&& pattern_magnitude(b) * d <= n <= pattern_magnitude(b + 1) * d
            &&& (gap(b, n, d) < gap(b + 1, n, d)) == (rem < pow2((k - 1) as nat))
            &&& (gap(b, n, d) == gap(b + 1, n, d)) == (rem == pow2((k - 1) as nat) && r == 0)
        }),
{
    let span = FRACTION_SPAN as int;
    let s = e + k;
    let b = s * span + q;
    let a = pow2(up_shift(e)) as int;
    let d0 = pow2(down_shift(e)) as int;
    let d = m * d0;
    let w = pow2(k as nat) as int;
    let t = pow2(s as nat) as int;
    let half = pow2((k - 1) as nat) as int;
    let n = (p * m + r) * a;
    lemma_pow2_pos(up_shift(e));
    lemma_pow2_pos(down_shift(e));
    lemma_pow2_pos(k as nat);
    lemma_pow2_pos(s as nat);
    lemma_pow2_unfold(k as nat);
    lemma_pow2_adds(s as nat, down_shift(e));
    lemma_pow2_adds(up_shift(e), k as nat);
    let y = a * w;
    assert(t * d0 == y);
    lemma_mul_strictly_positive(m, d0);
    lemma_pattern_value(s, q);
    lemma_pattern_value(s, q + 1);
    assert(b + 1 == s * span + (q + 1));
    let base = (q * m) * y;
    let u = rem * m + r;
    let v = half * m;
    // the three magnitudes over one base
    assert((q * t) * (m * d0) == (q * m) * (t * d0)) by (nonlinear_arith);
    assert(((q + 1) * t) * (m * d0) == (q * m) * (t * d0) + m * (t * d0)) by (nonlinear_arith);
    assert(((q * w + rem) * m + r) * a == (q * m) * (a * w) + (rem * m + r) * a)
        by (nonlinear_arith);
    assert(m * (a * w) == ((2 * half) * m) * a) by (nonlinear_arith)
        requires
            w == 2 * half,
    ;
    assert(((2 * half) * m) * a == 2 * ((half * m) * a)) by (nonlinear_arith);
    assert(pattern_magnitude(b) * d == base);
    assert(pattern_magnitude(b + 1) * d == base + 2 * (v * a));
    assert(n == base + u * a);
    // the remainder against the half
    lemma_mul_inequality(rem, w - 1, m);
    assert((w - 1) * m + m == 2 * v) by (nonlinear_arith)
        requires
            w == 2 * half,
            v == half * m,
    ;
    assert(0 <= rem * m) by (nonlinear_arith)
        requires
            0 <= rem,
            0 < m,
    ;
    assert(0 <= u < 2 * v);
    lemma_remainder_against_half(rem, r, m, half);
    lemma_mul_strict_inequality_converse_both(u, v, a);
    assert(u * a >= 0) by (nonlinear_arith)
        requires
            u >= 0,
            a > 0,
    ;
    assert(u * a < 2 * (v * a)) by (nonlinear_arith)
        requires
            u < 2 * v,
            a > 0,
    ;
}

/// `rem * m + r` against `half * m`, for a remainder `r` below `m`: below
/// where `rem` is below `half`, equal where `rem` is `half` and `r` is zero.
pub proof fn lemma_remainder_against_half(rem: int, r: int, m: int, half: int)
    requires
        0 <= r < m,
        0 <= rem,
        0 <= half,
    ensures
        (rem * m + r < half * m) == (rem < half),
        (rem * m + r == half * m) == (rem == half && r == 0),
{
    if rem < half {
        lemma_mul_inequality(rem + 1, half, m);
        assert((rem + 1) * m == rem * m + m) by (nonlinear_arith);
    } else if rem > half {
        lemma_mul_inequality(half + 1, rem, m);
        assert((half + 1) * m == half * m + m) by (nonlinear_arith);
    }
}

/// For a positive factor, products stand as their other factors do.
pub proof fn lemma_mul_strict_inequality_converse_both(u: int, v: int, a: int)
    requires
        a > 0,
    ensures
        (u * a < v * a) == (u < v),
        (u * a == v * a) == (u == v),
{
    if u < v {
        lemma_mul_strict_inequality(u, v, a);
    } else if u > v {
        lemma_mul_strict_inequality(v, u, a);
    }
}

/// Where `p` has at most 53 bits and counts units of `2^e` with `e >= j`,
/// `p * 2^j` counts the same magnitude in units of `2^(e - j)`, exactly.
#[verifier::rlimit(40)]
pub proof fn lemma_exact_case(p: int, e: int, length: int, j: int)
    requires
        1 <= length,
        pow2((length - 1) as nat) <= p < pow2(length as nat),
        0 <= j <= 53 - length,
        e - j >= 0,
        j == 53 - length || e - j == 0,
    ensures
        ({
            let q = p * pow2(j as nat);
            let low = (e - j) * FRACTION_SPAN + q;
            &&& 0 <= q < 2 * FRACTION_SPAN
            &&& q >= FRACTION_SPAN || e - j == 0
            &&& pow2(down_shift(e)) == 1
            &&& pattern_magnitude(low) * 1 == p * pow2(up_shift(e))
        }),
{
    let s = e - j;
    let scale = pow2(j as nat) as int;
    let q = p * scale;
    lemma2_to64();
    lemma2_to64_rest();
    lemma_pow2_pos(j as nat);
    lemma_pow2_adds(length as nat, j as nat);
    if length + j < 53 {
        lemma_pow2_strictly_increases((length + j) as nat, 53);
    }
    assert(0 <= q < pow2(length as nat) * scale) by (nonlinear_arith)
        requires
            0 <= p < pow2(length as nat),
            q == p * scale,
            scale > 0,
    ;
    if j == 53 - length {
        lemma_pow2_adds((length - 1) as nat, j as nat);
        assert(pow2((length - 1) as nat) * scale <= q) by (nonlinear_arith)
            requires
                pow2((length - 1) as nat) <= p,
                q == p * scale,
                scale > 0,
        ;
    }
    lemma_pow2_adds(s as nat, j as nat);
    lemma_pattern_value(s, q);
    assert(p * pow2(up_shift(e)) == q * pow2(s as nat)) by (nonlinear_arith)
        requires
            pow2(up_shift(e)) == pow2(s as nat) * scale,
            q == p * scale,
    ;
}

/// What is below half of the smallest magnitude rounds to zero.
pub proof fn lemma_tiny_case(p: int, r: int, m: int, e: int)
    requires
        0 <= p < pow2(120),
        0 <= r < m,
        e < -120,
    ensures
        nearest(0, (p * m + r) * pow2(up_shift(e)), m * pow2(down_shift(e))),
{
    let n = (p * m + r) * pow2(up_shift(e));
    let d0 = pow2(down_shift(e)) as int;
    let d = m * d0;
    lemma2_to64();
    lemma_pow2_unfold(121);
    if -e > 121 {
        lemma_pow2_strictly_increases(121, (-e) as nat);
    }
    lemma_pattern_value(0, 1);
    lemma_pattern_value(0, 0);
    assert(n == p * m + r) by (nonlinear_arith)
        requires
            n == (p * m + r) * 1,
    ;
    assert(0 <= n && 2 * n < d) by (nonlinear_arith)
        requires
            n == p * m + r,
            0 <= r < m,
            0 <= p,
            p + 1 <= pow2(120),
            d == m * d0,
            d0 >= 2 * pow2(120),
    ;
    assert(pattern_magnitude(0) * d == 0 && pattern_magnitude(1) * d == d) by (nonlinear_arith)
        requires
            pattern_magnitude(0) == 0,
            pattern_magnitude(1) == 1,
    ;
    lemma_nearest_of_neighbours(0, n, d);
}

/// Where `k` is the larger of `length - 53` and `-e`, cutting `k` bits off
/// `p` leaves at most 53 bits, and all 53 wherever the exponent `e + k` is not
/// the least.
#[verifier::rlimit(40)]
pub proof fn lemma_cut_case(p: int, e: int, length: int, k: int, q: int, rem: int)
    requires
        1 <= length,
        pow2((length - 1) as nat) <= p < pow2(length as nat),
        k >= 1,
        k >= length - 53,
        e + k >= 0,
        k == length - 53 || e + k == 0,
        p == q * pow2(k as nat) + rem,
        0 <= rem < pow2(k as nat),
    ensures
        0 <= q < 2 * FRACTION_SPAN,
        q >= FRACTION_SPAN || e + k == 0,
{
    let w = pow2(k as nat) as int;
    lemma2_to64();
    lemma2_to64_rest();
    lemma_pow2_pos(k as nat);
    lemma_pow2_adds(53, k as nat);
    lemma_pow2_adds(52, k as nat);
    if length < 53 + k {
        lemma_pow2_strictly_increases(length as nat, (53 + k) as nat);
    }
    assert(q < pow2(53)) by (nonlinear_arith)
        requires
            p == q * w + rem,
            rem >= 0,
            p < pow2(53) * w,
            w > 0,
    ;
    assert(q >= 0) by (nonlinear_arith)
        requires
            p == q * w + rem,
            rem < w,
            p >= 0,
            w > 0,
    ;
    if k == length - 53 {
        assert(q >= pow2(52)) by (nonlinear_arith)
            requires
                p == q * w + rem,
                rem < w,
                p >= pow2(52) * w,
                w > 0,
        ;
    }
}

/// A pattern at or beyond that of infinity, below the exact magnitude, shows
/// that the magnitude rounds to infinity.
pub proof fn lemma_overflow_case(low: int, n: int, d: int)
    requires
        d > 0,
        low >= INFINITY_BITS,
        pattern_magnitude(low) * d <= n,
    ensures
        nearest(INFINITY_BITS as int, n, d),
{
    if low > INFINITY_BITS {
        lemma_pattern_order(INFINITY_BITS as int, low);
    }
    assert(pattern_magnitude(INFINITY_BITS as int) * d <= pattern_magnitude(low) * d)
        by (nonlinear_arith)
        requires
            pattern_magnitude(INFINITY_BITS as int) <= pattern_magnitude(low),
            d > 0,
    ;
    lemma_nearest_overflows(n, d);
}

/// The pattern of `q * 2^s`, or that of infinity where it lies beyond.
fn place(s: i32, q: u64) -> (r: u64)
    requires
        0 <= s <= 4400,
        q < 2 * FRACTION_SPAN,
    ensures
        s * FRACTION_SPAN + q >= INFINITY_BITS ==> r == INFINITY_BITS,
        s * FRACTION_SPAN + q < INFINITY_BITS ==> r == s * FRACTION_SPAN + q,
{
    if s >= 2047 {
        assert(s * FRACTION_SPAN + q >= INFINITY_BITS) by (nonlinear_arith)
            requires
                s >= 2047,
                q >= 0,
        ;
        return INFINITY_BITS;
    }
    assert(s * FRACTION_SPAN <= 2046 * FRACTION_SPAN) by (nonlinear_arith)
        requires
            0 <= s <= 2046,
    ;
    let base: u64 = (s as u64) * FRACTION_SPAN + q;
    if base >= INFINITY_BITS {
        INFINITY_BITS
    } else {
        base
    }
}

/// The pattern to which `(p + r / m) * 2^e` rounds. A remainder `r` that is
/// not zero needs a `p` of more than 53 bits beside it.
#[verifier::rlimit(40)]
pub fn round_to_pattern(p: u128, r: u64, m: u64, e: i32) -> (b: u64)
    requires
        1 <= p < 0x100_0000_0000_0000_0000_0000_0000_0000,
        r < m,
        r > 0 ==> p >= 2 * FRACTION_SPAN,
        -1200 <= e <= 4200,
    ensures
        nearest(
            b as int,
            (p * m + r) * pow2(up_shift(e as int)),
            m * pow2(down_shift(e as int)),
        ),
{
    let length: u32 = bit_length(p);
    proof {
        lemma2_to64();
        lemma2_to64_rest();
        lemma_pow2_adds(64, 56);
        if length > 121 {
            lemma_pow2_strictly_increases(120, (length - 1) as nat);
        }
        if length < 53 {
            lemma_pow2_strictly_increases(length as nat, 53);
        }
        lemma_pow2_pos(down_shift(e as int));
        assert(m * pow2(down_shift(e as int)) > 0) by (nonlinear_arith)
            requires
                m > 0,
                pow2(down_shift(e as int)) > 0,
        ;
    }
    assert(length <= 121);
    let ghost n = (p * m + r) * pow2(up_shift(e as int));
    let ghost d = m * pow2(down_shift(e as int));
    let k: i32 = if length as i32 - 53 >= -e {
        length as i32 - 53
    } else {
        -e
    };
    let s: i32 = e + k;
    if k <= 0 {
        let scale: u128 = two_to_wide((-k) as u32);
        proof {
            lemma_exact_case(p as int, e as int, length as int, -k as int);
        }
        let q: u128 = p * scale;
        let ghost low = s * FRACTION_SPAN + q;
        let b: u64 = place(s, q as u64);
        proof {
            assert(r == 0);
            assert(pattern_magnitude(low) * d == n) by (nonlinear_arith)
                requires
                    pattern_magnitude(low) * 1 == p * pow2(up_shift(e as int)),
                    n == (p * m + 0) * pow2(up_shift(e as int)),
                    d == m * 1,
            ;
            if low >= INFINITY_BITS {
                lemma_overflow_case(low, n, d);
            } else {
                lemma_nearest_exact(low, d);
            }
        }
        return b;
    }
    if k > 120 {
        proof {
            lemma_tiny_case(p as int, r as int, m as int, e as int);
        }
        return 0;
    }
    let w: u128 = two_to_wide(k as u32);
    let q: u128 = p / w;
    let rem: u128 = p % w;
    let half: u128 = w / 2;
    let ghost low = s * FRACTION_SPAN + q;
    proof {
        lemma_pow2_unfold(k as nat);
        vstd::arithmetic::div_mod::lemma_fundamental_div_mod(p as int, w as int);
        assert(p == q * w + rem) by (nonlinear_arith)
            requires
                p == w * q + rem,
        ;
        lemma_cut_case(p as int, e as int, length as int, k as int, q as int, rem as int);
        lemma_round_shifted(
            p as int,
            r as int,
            m as int,
            e as int,
            k as int,
            q as int,
            rem as int,
        );
        assert(low % 2 == q % 2) by {
            assert(low == q + (s * 0x8_0000_0000_0000) * 2) by (nonlinear_arith)
                requires
                    low == s * FRACTION_SPAN + q,
            ;
        }
        if low >= INFINITY_BITS {
            lemma_overflow_case(low, n, d);
        } else {
            lemma_nearest_of_neighbours(low, n, d);
        }
    }
    let b: u64 = place(s, q as u64);
    if b < INFINITY_BITS && (rem > half || (rem == half && (r > 0 || q % 2 == 1))) {
        b + 1
    } else {
        b
    }
}

/// Rounding `(n * t) / (d * t)` is rounding `n / d`.
pub proof fn lemma_nearest_unscales(b: int, n: int, d: int, t: int)
    requires
        d > 0,
        t > 0,
        nearest(b, n * t, d * t),
    ensures
        nearest(b, n, d),
{
    assert forall|c: int| 0 <= c <= INFINITY_BITS implies #[trigger] gap(c, n * t, d * t) == gap(
        c,
        n,
        d,
    ) * t by {
        let m = pattern_magnitude(c);
        assert(m * (d * t) == (m * d) * t) by (nonlinear_arith);
        assert((m * d >= n) == ((m * d) * t >= n * t)) by (nonlinear_arith)
            requires
                t > 0,
        ;
        assert((m * d - n) * t == (m * d) * t - n * t && (n - m * d) * t == n * t - (m * d) * t)
            by (nonlinear_arith);
    }
    assert forall|c: int| 0 <= c <= INFINITY_BITS implies gap(b, n, d) <= #[trigger] gap(c, n, d) by {
        assert(gap(b, n * t, d * t) <= gap(c, n * t, d * t));
        assert(gap(b, n, d) <= gap(c, n, d)) by (nonlinear_arith)
            requires
                gap(b, n, d) * t <= gap(c, n, d) * t,
                t > 0,
        ;
    }
    assert forall|c: int|
        0 <= c <= INFINITY_BITS && c != b && #[trigger] gap(c, n, d) == gap(b, n, d) implies b % 2
        == 0 by {
        assert(gap(c, n * t, d * t) == gap(b, n * t, d * t));
    }
}

} // verus!
