//! Double-precision numbers held by their bit patterns.
//!
//! A `Double` carries the 64 bits of an IEEE 754 binary64 value: one sign bit,
//! eleven exponent bits and fifty-two fraction bits. Everything the response
//! logic has to decide about a number (is it a number at all, is it finite, is
//! it zero, which of two is smaller) is decided on those bits with integer
//! arithmetic, and stated against the exact value the bits stand for.
use vstd::arithmetic::div_mod::*;
use vstd::arithmetic::power2::*;
use vstd::prelude::*;

verus! {

/// Two to the 63rd: the weight of the sign bit.
pub const SIGN_BIT: u64 = 0x8000_0000_0000_0000;

/// Two to the 52nd: the number of fraction patterns per exponent.
pub const FRACTION_SPAN: u64 = 0x0010_0000_0000_0000;

/// The exponent field of infinities and of values that are not numbers.
pub const TOP_EXPONENT: u64 = 2047;

/// The bit pattern of positive zero.
pub const ZERO_BITS: u64 = 0;

/// The bit pattern of one.
pub const ONE_BITS: u64 = 0x3FF0_0000_0000_0000;

/// The bit pattern of one half.
pub const HALF_BITS: u64 = 0x3FE0_0000_0000_0000;

/// The bit pattern of minus one half.
pub const MINUS_HALF_BITS: u64 = 0xBFE0_0000_0000_0000;

/// The bit pattern of minus one.
pub const MINUS_ONE_BITS: u64 = 0xBFF0_0000_0000_0000;

/// The bit pattern of two.
pub const TWO_BITS: u64 = 0x4000_0000_0000_0000;

/// The bit pattern of the double nearest to pi.
pub const PI_BITS: u64 = 0x4009_21FB_5444_2D18;

/// The bit pattern of the double nearest to two pi.
pub const TWO_PI_BITS: u64 = 0x4019_21FB_5444_2D18;

/// The bit pattern of twenty.
pub const TWENTY_BITS: u64 = 0x4034_0000_0000_0000;

/// The bit pattern of one hundred and eighty, the straight angle in degrees.
pub const STRAIGHT_BITS: u64 = 0x4066_8000_0000_0000;

/// The bit pattern of minus one hundred and eighty.
pub const MINUS_STRAIGHT_BITS: u64 = 0xC066_8000_0000_0000;

/// The exponent of the unit in which `scaled` counts: a value `v` has
/// `scaled == v * 2^1074`.
pub const SCALE_EXPONENT: u64 = 1074;

/// A double-precision number, by its bit pattern.
#[derive(Clone, Copy, Debug)]
pub struct Double {
    pub bits: u64,
}

/// Exact magnitude, in units of `2^-1074`, of the number with exponent field
/// `exponent` and fraction field `fraction`. An infinity gets the magnitude
/// that the next binade would start with, above every finite one.
pub open spec fn magnitude_of(exponent: int, fraction: int) -> int {
    if exponent <= 0 {
        fraction
    } else {
        (FRACTION_SPAN + fraction) * pow2((exponent - 1) as nat)
    }
}

/// The number of units of `2^-1074` in one.
pub open spec fn unit() -> int {
    pow2(SCALE_EXPONENT as nat) as int
}

impl Double {
    /// The sign bit is set.
    pub open spec fn sign(self) -> bool {
        self.bits >= SIGN_BIT
    }

    /// The bits without the sign.
    pub open spec fn magnitude_bits(self) -> int {
        self.bits as int % SIGN_BIT as int
    }

    /// The exponent field, `0 ..= 2047`.
    pub open spec fn exponent(self) -> int {
        self.magnitude_bits() / FRACTION_SPAN as int
    }

    /// The fraction field, `0 .. 2^52`.
    pub open spec fn fraction(self) -> int {
        self.magnitude_bits() % FRACTION_SPAN as int
    }

    /// Not a number.
    pub open spec fn nan(self) -> bool {
        self.exponent() == TOP_EXPONENT && self.fraction() != 0
    }

    /// An infinity of either sign.
    pub open spec fn infinite(self) -> bool {
        self.exponent() == TOP_EXPONENT && self.fraction() == 0
    }

    /// A number that is not an infinity.
    pub open spec fn finite(self) -> bool {
        self.exponent() < TOP_EXPONENT
    }

    /// Exact absolute value in units of `2^-1074` (meaningful unless `nan`).
    pub open spec fn magnitude(self) -> int {
        magnitude_of(self.exponent(), self.fraction())
    }

    /// Exact value in units of `2^-1074` (meaningful unless `nan`). Both
    /// zeros have `scaled == 0`.
    pub open spec fn scaled(self) -> int {
        if self.sign() {
            -self.magnitude()
        } else {
            self.magnitude()
        }
    }

    /// A number strictly above zero (positive infinity included).
    pub open spec fn positive(self) -> bool {
        !self.nan() && self.scaled() > 0
    }

    /// `self < other` as numbers; false when either is not a number.
    pub open spec fn below(self, other: Double) -> bool {
        !self.nan() && !other.nan() && self.scaled() < other.scaled()
    }

    /// The whole number that the value is, where it is one: the number of
    /// whole units in the magnitude, with the sign.
    pub open spec fn whole_value(self) -> int {
        if self.sign() {
            -(self.magnitude() / unit())
        } else {
            self.magnitude() / unit()
        }
    }

    /// The value is a whole number that 64 bits can hold as a signed
    /// integer.
    pub open spec fn whole(self) -> bool {
        &&& !self.nan()
        &&& self.magnitude() % unit() == 0
        &&& i64::MIN <= self.whole_value() <= i64::MAX
    }

    /// The number with the given bit pattern.
    pub fn from_bits(bits: u64) -> (r: Double)
        ensures
            r.bits == bits,
    {
        Double { bits }
    }

    /// The bit pattern.
    pub fn to_bits(&self) -> (r: u64)
        ensures
            r == self.bits,
    {
        self.bits
    }

    /// Positive zero.
    pub fn zero() -> (r: Double)
        ensures
            r.bits == ZERO_BITS,
            r.finite(),
            r.scaled() == 0,
    {
        Double { bits: ZERO_BITS }
    }

    /// One.
    pub fn one() -> (r: Double)
        ensures
            r.bits == ONE_BITS,
            r.finite(),
            r.positive(),
            r.scaled() == pow2(SCALE_EXPONENT as nat),
    {
        proof {
            lemma_one_scaled();
        }
        Double { bits: ONE_BITS }
    }

    fn abs_bits(&self) -> (r: u64)
        ensures
            r == self.magnitude_bits(),
            r < SIGN_BIT,
    {
        self.bits % SIGN_BIT
    }

    /// Whether the value is not a number.
    pub fn is_nan(&self) -> (r: bool)
        ensures
            r == self.nan(),
    {
        self.abs_bits() > TOP_EXPONENT * FRACTION_SPAN
    }

    /// Whether the value is a number other than an infinity.
    pub fn is_finite(&self) -> (r: bool)
        ensures
            r == self.finite(),
    {
        self.abs_bits() < TOP_EXPONENT * FRACTION_SPAN
    }

    /// Whether the value is zero, of either sign.
    pub fn is_zero(&self) -> (r: bool)
        ensures
            r == (!self.nan() && self.scaled() == 0),
    {
        proof {
            lemma_magnitude_sign(*self);
        }
        self.abs_bits() == 0
    }

    /// Whether the value is a number strictly above zero.
    pub fn is_positive(&self) -> (r: bool)
        ensures
            r == self.positive(),
    {
        proof {
            lemma_magnitude_sign(*self);
        }
        let a: u64 = self.abs_bits();
        self.bits < SIGN_BIT && a != 0 && a <= TOP_EXPONENT * FRACTION_SPAN
    }

    /// The value as an integer, where it is a whole number that 64 bits can
    /// hold; `None` for every other value. Both zeros give zero.
    #[verifier::rlimit(40)]
    pub fn to_integer(&self) -> (r: Option<i64>)
        ensures
            r is Some <==> self.whole(),
            r is Some ==> r->Some_0 == self.whole_value(),
            r is Some ==> self.scaled() == r->Some_0 * unit(),
    {
        proof {
            if self.whole() {
                lemma_whole_scaled(*self);
            }
        }
        let a: u64 = self.abs_bits();
        let negative: bool = self.bits >= SIGN_BIT;
        let e: u64 = a / FRACTION_SPAN;
        let f: u64 = a % FRACTION_SPAN;
        proof {
            lemma_whole_parts(e as int, f as int);
        }
        if a == 0 {
            return Some(0);
        }
        if e < 1023 || e > 1086 {
            return None;
        }
        let m: u64 = FRACTION_SPAN + f;
        if e == 1086 {
            return if negative && f == 0 {
                Some(i64::MIN)
            } else {
                None
            };
        }
        if e >= 1075 {
            let scale: u64 = two_to(e - 1075);
            proof {
                if e < 1085 {
                    lemma_pow2_strictly_increases((e - 1075) as nat, 10);
                }
                lemma2_to64();
                assert(m * scale < 0x8000_0000_0000_0000) by (nonlinear_arith)
                    requires
                        m < 0x20_0000_0000_0000,
                        0 <= scale <= 0x400,
                ;
            }
            let k: u64 = m * scale;
            if negative {
                Some(-(k as i64))
            } else {
                Some(k as i64)
            }
        } else {
            let scale: u64 = two_to(1075 - e);
            proof {
                lemma_pow2_pos((1075 - e) as nat);
            }
            if m % scale != 0 {
                return None;
            }
            let k: u64 = m / scale;
            if negative {
                Some(-(k as i64))
            } else {
                Some(k as i64)
            }
        }
    }

    /// Whether `self < other` as numbers. As with the machine's comparison,
    /// nothing is below or above a value that is not a number, and the two
    /// zeros are equal.
    pub fn lt(&self, other: &Double) -> (r: bool)
        ensures
            r == self.below(*other),
    {
        if self.is_nan() || other.is_nan() {
            return false;
        }
        let a: u64 = self.abs_bits();
        let b: u64 = other.abs_bits();
        proof {
            lemma_magnitude_order(*self, *other);
            lemma_magnitude_order(*other, *self);
            lemma_magnitude_sign(*self);
            lemma_magnitude_sign(*other);
        }
        if self.bits >= SIGN_BIT {
            if other.bits >= SIGN_BIT {
                b < a
            } else {
                a != 0 || b != 0
            }
        } else {
            if other.bits >= SIGN_BIT {
                false
            } else {
                a < b
            }
        }
    }
}

/// Two to the power `s`.
fn two_to(s: u64) -> (r: u64)
    requires
        s <= 62,
    ensures
        r == pow2(s as nat),
{
    let mut r: u64 = 1;
    let mut i: u64 = 0;
    proof {
        lemma2_to64();
    }
    while i < s
        invariant
            i <= s <= 62,
            r == pow2(i as nat),
        decreases s - i,
    {
        proof {
            lemma_pow2_unfold((i + 1) as nat);
            lemma_pow2_strictly_increases((i + 1) as nat, 63);
            lemma2_to64_rest();
        }
        r = r * 2;
        i += 1;
    }
    r
}

/// How the magnitude of exponent field `e` and fraction field `f` stands to
/// the unit: below it for a value under one; a multiple of it from the
/// exponent on at which the last fraction bit weighs one; and in between a
/// multiple where the fraction bits that weigh less than one are all zero.
#[verifier::rlimit(40)]
pub proof fn lemma_whole_parts(e: int, f: int)
    requires
        0 <= e <= TOP_EXPONENT,
        0 <= f < FRACTION_SPAN,
    ensures
        e == 0 && f == 0 ==> magnitude_of(e, f) == 0,
        e <= 1022 && !(e == 0 && f == 0) ==> 0 < magnitude_of(e, f) < unit(),
        e <= 1022 && !(e == 0 && f == 0) ==> magnitude_of(e, f) % unit() != 0,
        1023 <= e <= 1074 ==> {
            &&& (magnitude_of(e, f) % unit() == 0 <==> (FRACTION_SPAN + f) % (pow2(
                (1075 - e) as nat,
            ) as int) == 0)
            &&& magnitude_of(e, f) / unit() == (FRACTION_SPAN + f) / (pow2(
                (1075 - e) as nat,
            ) as int)
            &&& 0 <= magnitude_of(e, f) / unit() < 0x20_0000_0000_0000
        },
        1075 <= e ==> {
            &&& magnitude_of(e, f) % unit() == 0
            &&& magnitude_of(e, f) / unit() == (FRACTION_SPAN + f) * pow2((e - 1075) as nat)
        },
        1087 <= e ==> magnitude_of(e, f) / unit() >= 0x1_0000_0000_0000_0000,
        e == 1086 ==> magnitude_of(e, f) / unit() == (FRACTION_SPAN + f) * 0x800,
        0int % unit() == 0 && 0int / unit() == 0,
{
    let span = FRACTION_SPAN as int;
    let m = span + f;
    let p = unit();
    lemma_pow2_pos(SCALE_EXPONENT as nat);
    lemma2_to64();
    lemma2_to64_rest();
    if e <= 1022 && !(e == 0 && f == 0) {
        if e == 0 {
            lemma_pow2_strictly_increases(52, 1074);
        } else {
            // m * 2^(e-1) < 2^53 * 2^(e-1) = 2^(e+52) <= 2^1074
            let q = pow2((e - 1) as nat) as int;
            lemma_pow2_pos((e - 1) as nat);
            lemma_pow2_adds(53, (e - 1) as nat);
            if e + 52 < 1074 {
                lemma_pow2_strictly_increases((e + 52) as nat, 1074);
            }
            assert(0 < m * q < 0x20_0000_0000_0000 * q) by (nonlinear_arith)
                requires
                    0 < m < 0x20_0000_0000_0000,
                    q > 0,
            ;
        }
        lemma_small_mod(magnitude_of(e, f) as nat, p as nat);
    }
    if 1023 <= e <= 1074 {
        // unit = 2^(1075-e) * 2^(e-1)
        let q = pow2((e - 1) as nat) as int;
        let d = pow2((1075 - e) as nat) as int;
        lemma_pow2_pos((e - 1) as nat);
        lemma_pow2_pos((1075 - e) as nat);
        lemma_pow2_adds((e - 1) as nat, (1075 - e) as nat);
        assert(p == q * d);
        assert(magnitude_of(e, f) == q * m) by (nonlinear_arith)
            requires
                magnitude_of(e, f) == m * q,
        ;
        lemma_truncate_middle(m, q, d);
        lemma_div_multiples_vanish_quotient(q, m, d);
        lemma_mod_bound(m, d);
        assert(q * (m % d) == 0 <==> m % d == 0) by (nonlinear_arith)
            requires
                q > 0,
                0 <= m % d,
        ;
        lemma_div_nonincreasing(m, d);
        lemma_div_pos_is_pos(m, d);
    }
    if 1075 <= e {
        // 2^(e-1) = 2^(e-1075) * unit
        let s = pow2((e - 1075) as nat) as int;
        lemma_pow2_pos((e - 1075) as nat);
        lemma_pow2_adds((e - 1075) as nat, SCALE_EXPONENT as nat);
        assert(magnitude_of(e, f) == (m * s) * p) by (nonlinear_arith)
            requires
                magnitude_of(e, f) == m * (s * p),
        ;
        lemma_mod_multiples_basic(m * s, p);
        assert(0 <= m * s) by (nonlinear_arith)
            requires
                0 <= m,
                0 <= s,
        ;
        lemma_div_by_multiple(m * s, p);
        if 1087 <= e {
            if e > 1087 {
                lemma_pow2_strictly_increases(12, (e - 1075) as nat);
            }
            assert(m * s >= 0x1_0000_0000_0000_0000) by (nonlinear_arith)
                requires
                    m >= 0x10_0000_0000_0000,
                    s >= 0x1000,
            ;
        }
    }
    lemma_small_mod(0, p as nat);
    lemma_div_basics_1(p);
}

/// A whole value is its whole number of units, and one is the whole number
/// one.
pub proof fn lemma_whole_scaled(a: Double)
    requires
        a.whole(),
    ensures
        a.scaled() == a.whole_value() * unit(),
{
    lemma_pow2_pos(SCALE_EXPONENT as nat);
    lemma_fundamental_div_mod(a.magnitude(), unit());
    let q = a.magnitude() / unit();
    assert(unit() * q == q * unit() && (-q) * unit() == -(q * unit())) by (nonlinear_arith);
}

/// The patterns `ZERO_BITS` and `ONE_BITS` stand for the whole numbers zero
/// and one.
pub proof fn lemma_zero_one_whole()
    ensures
        (Double { bits: ZERO_BITS }).whole(),
        (Double { bits: ZERO_BITS }).whole_value() == 0,
        (Double { bits: ONE_BITS }).whole(),
        (Double { bits: ONE_BITS }).whole_value() == 1,
{
    let one = Double { bits: ONE_BITS };
    let zero = Double { bits: ZERO_BITS };
    lemma_whole_parts(1023, 0);
    lemma_whole_parts(0, 0);
    lemma2_to64_rest();
    assert(one.exponent() == 1023 && one.fraction() == 0 && !one.sign());
    assert(zero.exponent() == 0 && zero.fraction() == 0 && !zero.sign());
    assert(pow2(52) == 0x10_0000_0000_0000);
    assert((FRACTION_SPAN + 0) % 0x10_0000_0000_0000 == 0);
    assert((FRACTION_SPAN + 0) / 0x10_0000_0000_0000 == 1);
    assert(one.magnitude() % unit() == 0);
    assert(one.magnitude() / unit() == 1);
}

/// The bit pattern `ONE_BITS` stands for exactly one.
pub proof fn lemma_one_scaled()
    ensures
        (Double { bits: ONE_BITS }).finite(),
        (Double { bits: ONE_BITS }).positive(),
        (Double { bits: ONE_BITS }).scaled() == pow2(SCALE_EXPONENT as nat),
{
    let one = Double { bits: ONE_BITS };
    assert(one.exponent() == 1023);
    assert(one.fraction() == 0);
    lemma2_to64_rest();
    lemma_pow2_adds(52, 1022);
    lemma_pow2_pos(1074);
}

/// A magnitude is never negative, and is zero only for the all-zero pattern.
pub proof fn lemma_magnitude_sign(a: Double)
    ensures
        a.magnitude() >= 0,
        a.magnitude() == 0 <==> a.magnitude_bits() == 0,
{
    let e = a.exponent();
    let f = a.fraction();
    if e > 0 {
        lemma_pow2_pos((e - 1) as nat);
        assert((FRACTION_SPAN + f) * pow2((e - 1) as nat) > 0) by (nonlinear_arith)
            requires
                FRACTION_SPAN + f > 0,
                pow2((e - 1) as nat) > 0,
        ;
    }
}

/// Within one exponent the magnitude grows with the fraction; a larger
/// exponent gives a larger magnitude whatever the fractions.
pub proof fn lemma_magnitude_of_increases(e1: int, f1: int, e2: int, f2: int)
    requires
        0 <= e1 <= e2,
        0 <= f1 < FRACTION_SPAN,
        0 <= f2 < FRACTION_SPAN,
        e1 < e2 || f1 < f2,
    ensures
        magnitude_of(e1, f1) < magnitude_of(e2, f2),
{
    let span = FRACTION_SPAN as int;
    if e1 == e2 {
        if e1 > 0 {
            let p = pow2((e1 - 1) as nat) as int;
            lemma_pow2_pos((e1 - 1) as nat);
            assert((span + f1) * p < (span + f2) * p) by (nonlinear_arith)
                requires
                    f1 < f2,
                    p > 0,
            ;
        }
    } else {
        // Everything with exponent e1 lies below span * 2^e1, and everything
        // with exponent e2 > e1 lies at or above it.
        let q = pow2((e2 - 1) as nat) as int;
        let bound = span * pow2(e1 as nat);
        lemma_pow2_pos(e1 as nat);
        lemma_pow2_pos((e2 - 1) as nat);
        if e1 == 0 {
            lemma2_to64();
            assert(magnitude_of(e1, f1) < bound);
        } else {
            let p = pow2((e1 - 1) as nat) as int;
            lemma_pow2_unfold(e1 as nat);
            lemma_pow2_pos((e1 - 1) as nat);
            assert((span + f1) * p < span * (2 * p)) by (nonlinear_arith)
                requires
                    0 <= f1 < span,
                    p > 0,
            ;
        }
        if e1 < e2 - 1 {
            lemma_pow2_strictly_increases(e1 as nat, (e2 - 1) as nat);
        }
        assert(pow2(e1 as nat) <= q);
        assert(span * pow2(e1 as nat) <= (span + f2) * q) by (nonlinear_arith)
            requires
                0 <= f2,
                span > 0,
                0 < pow2(e1 as nat) <= q,
        ;
    }
}

/// The order of two magnitudes is the order of the bit patterns that hold
/// them.
pub proof fn lemma_magnitude_order(a: Double, b: Double)
    ensures
        a.magnitude_bits() < b.magnitude_bits() <==> a.magnitude() < b.magnitude(),
        a.magnitude_bits() == b.magnitude_bits() ==> a.magnitude() == b.magnitude(),
{
    let (ea, fa) = (a.exponent(), a.fraction());
    let (eb, fb) = (b.exponent(), b.fraction());
    if ea < eb || (ea == eb && fa < fb) {
        lemma_magnitude_of_increases(ea, fa, eb, fb);
    } else if eb < ea || (eb == ea && fb < fa) {
        lemma_magnitude_of_increases(eb, fb, ea, fa);
    }
}

} // verus!
