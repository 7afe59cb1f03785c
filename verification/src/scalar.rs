//! Single-precision numbers, held by their bit patterns.
//!
//! Arithmetic gives the exact result rounded to the nearest representable number.
use vstd::prelude::*;

use crate::rounding::{pack, pack_root, power, INFINITE, OCTAVE, SIGN};

verus! {

/// A single-precision number.
#[derive(Clone, Copy, PartialEq, Eq, Structural, Debug)]
pub struct Scalar {
    pub bits: u32,
}

/// The number nearest to `num / den` units, with the given sign.
pub open spec fn rounded(negative: bool, num: int, den: int) -> Scalar {
    Scalar { bits: (crate::rounding::nearest(num, den) + if negative { SIGN as int } else { 0 }) as u32 }
}

/// Units in the number one.
pub open spec fn one_units() -> int {
    crate::rounding::p2(149)
}

/// The number with the given bit pattern.
#[verifier::allow_in_spec]
pub fn scalar(bits: u32) -> Scalar
    returns
        (Scalar { bits }),
{
    Scalar { bits }
}

/// 0.0
#[verifier::allow_in_spec]
pub fn zero() -> Scalar
    returns
        (Scalar { bits: 0 }),
{
    Scalar { bits: 0 }
}

/// 1.0
#[verifier::allow_in_spec]
pub fn one() -> Scalar
    returns
        (Scalar { bits: 0x3f80_0000 }),
{
    Scalar { bits: 0x3f80_0000 }
}

/// 2.0
#[verifier::allow_in_spec]
pub fn two() -> Scalar
    returns
        (Scalar { bits: 0x4000_0000 }),
{
    Scalar { bits: 0x4000_0000 }
}

/// 0.5
#[verifier::allow_in_spec]
pub fn half() -> Scalar
    returns
        (Scalar { bits: 0x3f00_0000 }),
{
    Scalar { bits: 0x3f00_0000 }
}

impl Scalar {
    pub open spec fn negative(self) -> bool {
        self.bits >= SIGN
    }

    /// The code without the sign.
    pub open spec fn magnitude(self) -> int {
        self.bits as int % SIGN as int
    }

    pub open spec fn nan(self) -> bool {
        self.magnitude() > INFINITE
    }

    pub open spec fn infinite(self) -> bool {
        self.magnitude() == INFINITE
    }

    pub open spec fn finite(self) -> bool {
        self.magnitude() < INFINITE
    }

    pub open spec fn zero(self) -> bool {
        self.magnitude() == 0
    }

    /// The absolute value of a finite number, in units.
    pub open spec fn size(self) -> int {
        crate::rounding::grid(self.magnitude())
    }

    /// The value of a finite number, in units.
    pub open spec fn units(self) -> int {
        if self.negative() {
            -self.size()
        } else {
            self.size()
        }
    }

    /// Orders the numbers that are not NaN.
    pub open spec fn rank(self) -> int {
        if self.negative() {
            -self.magnitude()
        } else {
            self.magnitude()
        }
    }

    pub open spec fn signed_zero(negative: bool) -> Scalar {
        Scalar { bits: if negative { SIGN } else { 0 } }
    }

    pub open spec fn signed_infinity(negative: bool) -> Scalar {
        Scalar { bits: if negative { 0xff80_0000 } else { INFINITE } }
    }

    /// The NaN that operations without a result give.
    pub open spec fn undefined() -> Scalar {
        Scalar { bits: 0x7fc0_0000 }
    }

    pub open spec fn spec_neg(self) -> Scalar {
        Scalar { bits: if self.negative() { (self.bits - SIGN) as u32 } else { (self.bits + SIGN) as u32 } }
    }

    pub open spec fn spec_abs(self) -> Scalar {
        Scalar { bits: if self.negative() { (self.bits - SIGN) as u32 } else { self.bits } }
    }

    pub open spec fn spec_lt(self, other: Scalar) -> bool {
        !self.nan() && !other.nan() && self.rank() < other.rank()
    }

    pub open spec fn spec_le(self, other: Scalar) -> bool {
        !self.nan() && !other.nan() && self.rank() <= other.rank()
    }

    /// Numerical equality: the two zeros are equal, a NaN equals nothing.
    pub open spec fn spec_same(self, other: Scalar) -> bool {
        !self.nan() && !other.nan() && self.rank() == other.rank()
    }

    pub open spec fn spec_min(self, other: Scalar) -> Scalar {
        if self.nan() || other.spec_lt(self) {
            other
        } else {
            self
        }
    }

    pub open spec fn spec_max(self, other: Scalar) -> Scalar {
        if self.nan() || self.spec_lt(other) {
            other
        } else {
            self
        }
    }

    pub open spec fn spec_clamp(self, low: Scalar, high: Scalar) -> Scalar {
        if self.spec_lt(low) {
            low
        } else if high.spec_lt(self) {
            high
        } else {
            self
        }
    }

    pub open spec fn spec_add(self, other: Scalar) -> Scalar {
        if self.nan() || other.nan() {
            Self::undefined()
        } else if self.infinite() {
            if other.infinite() && self.negative() != other.negative() {
                Self::undefined()
            } else {
                self
            }
        } else if other.infinite() {
            other
        } else {
            let sum = self.units() + other.units();
            if sum == 0 {
                Self::signed_zero(self.negative() && other.negative())
            } else if sum < 0 {
                rounded(true, -sum, 1)
            } else {
                rounded(false, sum, 1)
            }
        }
    }

    pub open spec fn spec_sub(self, other: Scalar) -> Scalar {
        self.spec_add(other.spec_neg())
    }

    pub open spec fn spec_mul(self, other: Scalar) -> Scalar {
        let negative = self.negative() != other.negative();
        if self.nan() || other.nan() {
            Self::undefined()
        } else if self.infinite() || other.infinite() {
            if self.zero() || other.zero() {
                Self::undefined()
            } else {
                Self::signed_infinity(negative)
            }
        } else if self.zero() || other.zero() {
            Self::signed_zero(negative)
        } else {
            rounded(negative, self.size() * other.size(), one_units())
        }
    }

    pub open spec fn spec_div(self, other: Scalar) -> Scalar {
        let negative = self.negative() != other.negative();
        if self.nan() || other.nan() {
            Self::undefined()
        } else if self.infinite() {
            if other.infinite() {
                Self::undefined()
            } else {
                Self::signed_infinity(negative)
            }
        } else if other.infinite() {
            Self::signed_zero(negative)
        } else if other.zero() {
            if self.zero() {
                Self::undefined()
            } else {
                Self::signed_infinity(negative)
            }
        } else if self.zero() {
            Self::signed_zero(negative)
        } else {
            rounded(negative, self.size() * one_units(), other.size())
        }
    }

    /// The remainder of a division whose quotient is truncated; it is exact and
    /// has the sign of the dividend.
    pub open spec fn spec_rem(self, other: Scalar) -> Scalar {
        if self.nan() || other.nan() || self.infinite() || other.zero() {
            Self::undefined()
        } else if other.infinite() {
            self
        } else {
            let rest = self.size() % other.size();
            if rest == 0 {
                Self::signed_zero(self.negative())
            } else {
                rounded(self.negative(), rest, 1)
            }
        }
    }

    /// The remainder moved into the range from zero to the divisor.
    pub open spec fn spec_rem_euclid(self, other: Scalar) -> Scalar {
        let rest = self.spec_rem(other);
        if rest.spec_lt(Self::signed_zero(false)) {
            rest.spec_add(other.spec_abs())
        } else {
            rest
        }
    }

    pub open spec fn spec_sqrt(self) -> Scalar {
        if self.zero() {
            self
        } else if self.nan() || self.negative() {
            Self::undefined()
        } else if self.infinite() {
            self
        } else {
            Scalar { bits: crate::rounding::nearest_root(self.size() * one_units()) as u32 }
        }
    }

    /// A whole number with the given sign.
    pub open spec fn whole(negative: bool, count: int) -> Scalar {
        if count == 0 {
            Self::signed_zero(negative)
        } else {
            rounded(negative, count * one_units(), 1)
        }
    }

    pub open spec fn spec_trunc(self) -> Scalar {
        if self.finite() {
            Self::whole(self.negative(), self.size() / one_units())
        } else {
            self
        }
    }

    pub open spec fn spec_floor(self) -> Scalar {
        if !self.finite() {
            self
        } else if self.negative() {
            Self::whole(true, (self.size() + one_units() - 1) / one_units())
        } else {
            Self::whole(false, self.size() / one_units())
        }
    }

    pub open spec fn spec_ceil(self) -> Scalar {
        self.spec_neg().spec_floor().spec_neg()
    }

    /// The nearest whole number; halves move away from zero.
    pub open spec fn spec_round(self) -> Scalar {
        if self.finite() {
            Self::whole(self.negative(), (2 * self.size() + one_units()) / (2 * one_units()))
        } else {
            self
        }
    }

    pub open spec fn spec_fract(self) -> Scalar {
        self.spec_sub(self.spec_trunc())
    }

    pub open spec fn spec_recip(self) -> Scalar {
        Scalar { bits: 0x3f80_0000 }.spec_div(self)
    }

    pub open spec fn spec_from_u32(n: u32) -> Scalar {
        Self::whole(false, n as int)
    }

    pub open spec fn spec_from_i32(n: i32) -> Scalar {
        if n < 0 {
            Self::whole(true, -n)
        } else {
            Self::whole(false, n as int)
        }
    }

    /// Truncates to the integers from `low` to `high`; a NaN gives zero.
    pub open spec fn saturate(self, low: int, high: int) -> int {
        let count = self.size() / one_units();
        if self.nan() {
            0
        } else if self.negative() {
            if self.infinite() || -count < low {
                low
            } else {
                -count
            }
        } else if self.infinite() || count > high {
            high
        } else {
            count
        }
    }

    pub open spec fn spec_to_u32(self) -> u32 {
        self.saturate(0, u32::MAX as int) as u32
    }

    pub open spec fn spec_to_i32(self) -> i32 {
        self.saturate(i32::MIN as int, i32::MAX as int) as i32
    }

    pub fn is_nan(self) -> (r: bool)
        ensures
            r == self.nan(),
    {
        self.bits % SIGN > INFINITE
    }

    pub fn is_finite(self) -> (r: bool)
        ensures
            r == self.finite(),
    {
        self.bits % SIGN < INFINITE
    }

    fn is_negative(self) -> (r: bool)
        ensures
            r == self.negative(),
    {
        self.bits >= SIGN
    }

    fn position(self) -> (r: i64)
        ensures
            r == self.rank(),
    {
        let magnitude: i64 = (self.bits % SIGN) as i64;
        if self.bits >= SIGN {
            -magnitude
        } else {
            magnitude
        }
    }

    #[verifier::when_used_as_spec(spec_lt)]
    pub fn lt(self, other: Scalar) -> (r: bool)
        ensures
            r == self.spec_lt(other),
    {
        !self.is_nan() && !other.is_nan() && self.position() < other.position()
    }

    #[verifier::when_used_as_spec(spec_le)]
    pub fn le(self, other: Scalar) -> (r: bool)
        ensures
            r == self.spec_le(other),
    {
        !self.is_nan() && !other.is_nan() && self.position() <= other.position()
    }

    #[verifier::when_used_as_spec(spec_same)]
    pub fn same(self, other: Scalar) -> (r: bool)
        ensures
            r == self.spec_same(other),
    {
        !self.is_nan() && !other.is_nan() && self.position() == other.position()
    }

    #[verifier::when_used_as_spec(spec_neg)]
    pub fn neg(self) -> (r: Scalar)
        ensures
            r == self.spec_neg(),
    {
        Scalar {
            bits: if self.bits >= SIGN {
                self.bits - SIGN
            } else {
                self.bits + SIGN
            },
        }
    }

    #[verifier::when_used_as_spec(spec_abs)]
    pub fn abs(self) -> (r: Scalar)
        ensures
            r == self.spec_abs(),
    {
        Scalar {
            bits: if self.bits >= SIGN {
                self.bits - SIGN
            } else {
                self.bits
            },
        }
    }

    #[verifier::when_used_as_spec(spec_min)]
    pub fn min(self, other: Scalar) -> (r: Scalar)
        ensures
            r == self.spec_min(other),
    {
        if self.is_nan() || other.lt(self) {
            other
        } else {
            self
        }
    }

    #[verifier::when_used_as_spec(spec_max)]
    pub fn max(self, other: Scalar) -> (r: Scalar)
        ensures
            r == self.spec_max(other),
    {
        if self.is_nan() || self.lt(other) {
            other
        } else {
            self
        }
    }

    #[verifier::when_used_as_spec(spec_clamp)]
    pub fn clamp(self, low: Scalar, high: Scalar) -> (r: Scalar)
        ensures
            r == self.spec_clamp(low, high),
    {
        if self.lt(low) {
            low
        } else if high.lt(self) {
            high
        } else {
            self
        }
    }

    /// Mantissa and octave of a finite number.
    fn parts(self) -> (r: (u32, u32))
        requires
            self.finite(),
        ensures
            self.size() == r.0 * crate::rounding::p2(r.1 as int),
            r.0 < 0x100_0000,
            r.1 <= 253,
            r.0 == 0 <==> self.zero(),
            r.1 == if self.magnitude() < OCTAVE {
                0
            } else {
                self.magnitude() / OCTAVE as int - 1
            },
    {
        let magnitude: u32 = self.bits % SIGN;
        proof {
            crate::rounding::lemma_p2_values();
        }
        if magnitude < OCTAVE {
            (magnitude, 0)
        } else {
            (magnitude % OCTAVE + OCTAVE, magnitude / OCTAVE - 1)
        }
    }

    fn signed(negative: bool, code: u32) -> (r: Scalar)
        requires
            code < SIGN,
        ensures
            r.bits == code + if negative {
                SIGN as int
            } else {
                0
            },
    {
        Scalar {
            bits: if negative {
                code + SIGN
            } else {
                code
            },
        }
    }

    fn not_a_number() -> (r: Scalar)
        ensures
            r == Self::undefined(),
    {
        Scalar { bits: 0x7fc0_0000 }
    }

    /// Adds two nonzero finite numbers, the one of the higher octave first.
    fn add_aligned(self, ma: u32, ea: u32, other: Scalar, mb: u32, eb: u32) -> (r: Scalar)
        requires
            self.finite(),
            other.finite(),
            self.size() == ma * crate::rounding::p2(ea as int),
            other.size() == mb * crate::rounding::p2(eb as int),
            0 < ma < 0x100_0000,
            0 < mb < 0x100_0000,
            eb <= ea <= 253,
        ensures
            r == self.spec_add(other),
    {
        let ghost sa = self.size();
        let ghost sb = other.size();
        proof {
            lemma_self_rounding(self);
            lemma_self_rounding(other);
            crate::rounding::lemma_p2_pos(ea as int);
            crate::rounding::lemma_p2_pos(eb as int);
            assert(sa > 0 && sb > 0) by (nonlinear_arith)
                requires
                    sa == ma * crate::rounding::p2(ea as int),
                    sb == mb * crate::rounding::p2(eb as int),
                    ma > 0,
                    mb > 0,
                    crate::rounding::p2(ea as int) > 0,
                    crate::rounding::p2(eb as int) > 0,
            ;
        }
        let distance: u32 = ea - eb;
        if distance <= 99 {
            let step: u128 = power(distance);
            let ghost scale = crate::rounding::p2(eb as int);
            proof {
                crate::rounding::lemma_p2_adds(eb as int, distance as int);
                crate::rounding::lemma_p2_values();
                crate::rounding::lemma_p2_adds(24, distance as int);
                crate::rounding::lemma_p2_adds(24, 99);
                crate::rounding::lemma_p2_monotone(distance as int, 99);
                crate::rounding::lemma_p2_step(123);
                crate::rounding::lemma_p2_monotone(24, 123);
                crate::rounding::lemma_p2_u128();
                assert(ma * step < crate::rounding::p2(123)) by (nonlinear_arith)
                    requires
                        ma < crate::rounding::p2(24),
                        0 < step <= crate::rounding::p2(99),
                        crate::rounding::p2(123) == crate::rounding::p2(24) * crate::rounding::p2(99),
                ;
                assert(ma * step > 0) by (nonlinear_arith)
                    requires
                        ma > 0,
                        step > 0,
                ;
                assert(sa == (ma * step) * scale) by (nonlinear_arith)
                    requires
                        sa == ma * crate::rounding::p2(ea as int),
                        crate::rounding::p2(ea as int) == scale * step,
                ;
            }
            let big: u128 = ma as u128 * step;
            let small: u128 = mb as u128;
            if self.is_negative() == other.is_negative() {
                let sig: u128 = big + small;
                assert((sa + sb) * 1 == sig * (scale * 1)) by (nonlinear_arith)
                    requires
                        sa == big * scale,
                        sb == small * scale,
                        sig == big + small,
                ;
                let code: u32 = pack(sig, eb as i32, false, Ghost(sa + sb), Ghost(1));
                Self::signed(self.is_negative(), code)
            } else if big == small {
                Scalar { bits: 0 }
            } else if big > small {
                let sig: u128 = big - small;
                assert((sa - sb) * 1 == sig * (scale * 1)) by (nonlinear_arith)
                    requires
                        sa == big * scale,
                        sb == small * scale,
                        sig == big - small,
                ;
                assert(sa - sb > 0) by (nonlinear_arith)
                    requires
                        (sa - sb) * 1 == sig * (scale * 1),
                        sig > 0,
                        scale > 0,
                ;
                let code: u32 = pack(sig, eb as i32, false, Ghost(sa - sb), Ghost(1));
                Self::signed(self.is_negative(), code)
            } else {
                let sig: u128 = small - big;
                assert((sb - sa) * 1 == sig * (scale * 1)) by (nonlinear_arith)
                    requires
                        sa == big * scale,
                        sb == small * scale,
                        sig == small - big,
                ;
                assert(sb - sa > 0) by (nonlinear_arith)
                    requires
                        (sb - sa) * 1 == sig * (scale * 1),
                        sig > 0,
                        scale > 0,
                ;
                let code: u32 = pack(sig, eb as i32, false, Ghost(sb - sa), Ghost(1));
                Self::signed(other.is_negative(), code)
            }
        } else {
            // The smaller number only tells the larger one from its neighbours.
            let exponent: i32 = ea as i32 - 40;
            let sig: u128 = ma as u128 * 0x100_0000_0000;
            let ghost scale = crate::rounding::p2(exponent as int);
            proof {
                crate::rounding::lemma_p2_values();
                crate::rounding::lemma_p2_u128();
                crate::rounding::lemma_p2_adds(40, exponent as int);
                crate::rounding::lemma_p2_adds(24, eb as int);
                crate::rounding::lemma_p2_monotone(24 + eb, exponent as int);
                assert(sa == sig * scale) by (nonlinear_arith)
                    requires
                        sa == ma * crate::rounding::p2(ea as int),
                        crate::rounding::p2(ea as int) == crate::rounding::p2(40) * scale,
                        crate::rounding::p2(40) == 0x100_0000_0000,
                        sig == ma * 0x100_0000_0000,
                ;
                assert(sb < scale) by (nonlinear_arith)
                    requires
                        sb == mb * crate::rounding::p2(eb as int),
                        mb < crate::rounding::p2(24),
                        crate::rounding::p2(24) * crate::rounding::p2(eb as int) <= scale,
                        crate::rounding::p2(eb as int) > 0,
                ;
            }
            if self.is_negative() == other.is_negative() {
                assert(sig * (scale * 1) < (sa + sb) * 1 < (sig + 1) * (scale * 1)) by (nonlinear_arith)
                    requires
                        sa == sig * scale,
                        0 < sb < scale,
                ;
                let code: u32 = pack(sig, exponent, true, Ghost(sa + sb), Ghost(1));
                Self::signed(self.is_negative(), code)
            } else {
                assert((sig - 1) * (scale * 1) < (sa - sb) * 1 < sig * (scale * 1)) by (nonlinear_arith)
                    requires
                        sa == sig * scale,
                        0 < sb < scale,
                ;
                assert(sa - sb > 0) by (nonlinear_arith)
                    requires
                        (sig - 1) * (scale * 1) < (sa - sb) * 1,
                        sig >= 1,
                        scale > 0,
                ;
                let code: u32 = pack(sig - 1, exponent, true, Ghost(sa - sb), Ghost(1));
                Self::signed(self.is_negative(), code)
            }
        }
    }

    #[verifier::when_used_as_spec(spec_add)]
    pub fn add(self, other: Scalar) -> (r: Scalar)
        ensures
            r == self.spec_add(other),
    {
        if self.is_nan() || other.is_nan() {
            return Self::not_a_number();
        }
        if !self.is_finite() {
            if !other.is_finite() && self.is_negative() != other.is_negative() {
                return Self::not_a_number();
            }
            return self;
        }
        if !other.is_finite() {
            return other;
        }
        let (ma, ea): (u32, u32) = self.parts();
        let (mb, eb): (u32, u32) = other.parts();
        proof {
            lemma_self_rounding(self);
            lemma_self_rounding(other);
        }
        if ma == 0 && mb == 0 {
            Self::signed(self.is_negative() && other.is_negative(), 0)
        } else if mb == 0 {
            self
        } else if ma == 0 {
            other
        } else if ea >= eb {
            self.add_aligned(ma, ea, other, mb, eb)
        } else {
            other.add_aligned(mb, eb, self, ma, ea)
        }
    }

    #[verifier::when_used_as_spec(spec_sub)]
    pub fn sub(self, other: Scalar) -> (r: Scalar)
        ensures
            r == self.spec_sub(other),
    {
        self.add(other.neg())
    }

    #[verifier::when_used_as_spec(spec_mul)]
    pub fn mul(self, other: Scalar) -> (r: Scalar)
        ensures
            r == self.spec_mul(other),
    {
        let negative: bool = self.is_negative() != other.is_negative();
        if self.is_nan() || other.is_nan() {
            return Self::not_a_number();
        }
        if !self.is_finite() || !other.is_finite() {
            if self.bits % SIGN == 0 || other.bits % SIGN == 0 {
                return Self::not_a_number();
            }
            return Self::signed(negative, INFINITE);
        }
        let (ma, ea): (u32, u32) = self.parts();
        let (mb, eb): (u32, u32) = other.parts();
        if ma == 0 || mb == 0 {
            return Self::signed(negative, 0);
        }
        assert(0 < ma * mb < 0x1_0000_0000_0000) by (nonlinear_arith)
            requires
                0 < ma < 0x100_0000,
                0 < mb < 0x100_0000,
        ;
        let sig: u128 = ma as u128 * mb as u128;
        let exponent: i32 = ea as i32 + eb as i32 - 149;
        let ghost num = self.size() * other.size();
        let ghost den = one_units();
        proof {
            let pa = crate::rounding::p2(ea as int);
            let pb = crate::rounding::p2(eb as int);
            crate::rounding::lemma_p2_values();
            crate::rounding::lemma_p2_u128();
            crate::rounding::lemma_p2_pos(149);
            crate::rounding::lemma_p2_adds(ea as int, eb as int);
            let joint = crate::rounding::p2(ea + eb);
            assert(num == sig * joint) by (nonlinear_arith)
                requires
                    num == (ma * pa) * (mb * pb),
                    sig == ma * mb,
                    joint == pa * pb,
            ;
            if exponent > 0 {
                crate::rounding::lemma_p2_adds(exponent as int, 149);
                assert(num * 1 == sig * (crate::rounding::p2(exponent as int) * den)) by (nonlinear_arith)
                    requires
                        num == sig * joint,
                        joint == crate::rounding::p2(exponent as int) * den,
                ;
            } else {
                crate::rounding::lemma_p2_adds(ea + eb, -exponent);
                assert(num * crate::rounding::p2(-exponent) == sig * (1 * den)) by (nonlinear_arith)
                    requires
                        num == sig * joint,
                        den == joint * crate::rounding::p2(-exponent),
                ;
            }
        }
        let code: u32 = pack(sig, exponent, false, Ghost(num), Ghost(den));
        Self::signed(negative, code)
    }

    #[verifier::when_used_as_spec(spec_div)]
    pub fn div(self, other: Scalar) -> (r: Scalar)
        ensures
            r == self.spec_div(other),
    {
        let negative: bool = self.is_negative() != other.is_negative();
        if self.is_nan() || other.is_nan() {
            return Self::not_a_number();
        }
        if !self.is_finite() {
            if !other.is_finite() {
                return Self::not_a_number();
            }
            return Self::signed(negative, INFINITE);
        }
        if !other.is_finite() {
            return Self::signed(negative, 0);
        }
        let (ma, ea): (u32, u32) = self.parts();
        let (mb, eb): (u32, u32) = other.parts();
        if mb == 0 {
            if ma == 0 {
                return Self::not_a_number();
            }
            return Self::signed(negative, INFINITE);
        }
        if ma == 0 {
            return Self::signed(negative, 0);
        }
        let ghost k = 0x1_0000_0000_0000_0000_0000int;
        assert(0 < ma * k < 0x100_0000 * k) by (nonlinear_arith)
            requires
                0 < ma < 0x100_0000,
                k > 0,
        ;
        let dividend: u128 = ma as u128 * 0x1_0000_0000_0000_0000_0000;
        let sig: u128 = dividend / mb as u128;
        let rest: u128 = dividend % mb as u128;
        let exponent: i32 = ea as i32 - eb as i32 + 69;
        let ghost num = self.size() * one_units();
        let ghost den = other.size();
        proof {
            let pa = crate::rounding::p2(ea as int);
            let pb = crate::rounding::p2(eb as int);
            crate::rounding::lemma_p2_values();
            crate::rounding::lemma_p2_u128();
            crate::rounding::lemma_p2_pos(eb as int);
            crate::rounding::lemma_p2_pos(ea + 69);
            assert(dividend == sig * mb + rest) by (nonlinear_arith)
                requires
                    sig == dividend / mb as u128,
                    rest == dividend % mb as u128,
                    mb > 0,
            ;
            assert(0x4000_0000 <= sig <= dividend) by (nonlinear_arith)
                requires
                    dividend == sig * mb + rest,
                    rest < mb,
                    0 < mb < 0x100_0000,
                    dividend >= 0x1_0000_0000_0000_0000_0000,
            ;
            assert(den > 0) by (nonlinear_arith)
                requires
                    den == mb * pb,
                    mb > 0,
                    pb > 0,
            ;
            // After scaling, the value is `dividend * factor` against `mb * factor`.
            let up = crate::rounding::p2(if exponent > 0 { exponent as int } else { 0 });
            let down = crate::rounding::p2(if exponent < 0 { -exponent as int } else { 0 });
            crate::rounding::lemma_p2_adds(ea + 69, 80);
            crate::rounding::lemma_p2_adds(ea as int, 149);
            let factor = if exponent >= 0 { crate::rounding::p2(ea + 69) } else { pb };
            if exponent >= 0 {
                crate::rounding::lemma_p2_adds(exponent as int, eb as int);
                assert(num * 1 == dividend * factor) by (nonlinear_arith)
                    requires
                        num == (ma * pa) * crate::rounding::p2(149),
                        pa * crate::rounding::p2(149) == crate::rounding::p2(ea + 149),
                        crate::rounding::p2(ea + 149) == crate::rounding::p2(ea + 69) * crate::rounding::p2(80),
                        factor == crate::rounding::p2(ea + 69),
                        dividend == ma * crate::rounding::p2(80),
                ;
                assert(up * den == mb * factor) by (nonlinear_arith)
                    requires
                        den == mb * pb,
                        factor == up * pb,
                ;
            } else {
                crate::rounding::lemma_p2_adds(ea + 149, -exponent);
                crate::rounding::lemma_p2_adds(eb as int, 80);
                assert(num * down == dividend * factor) by (nonlinear_arith)
                    requires
                        num == (ma * pa) * crate::rounding::p2(149),
                        pa * crate::rounding::p2(149) == crate::rounding::p2(ea + 149),
                        crate::rounding::p2(ea + 149) * down == pb * crate::rounding::p2(80),
                        factor == pb,
                        dividend == ma * crate::rounding::p2(80),
                ;
                assert(up * den == mb * factor) by (nonlinear_arith)
                    requires
                        den == mb * pb,
                        factor == pb,
                        up == 1,
                ;
            }
            if rest == 0 {
                assert(num * down == sig * (up * den)) by (nonlinear_arith)
                    requires
                        num * down == dividend * factor,
                        up * den == mb * factor,
                        dividend == sig * mb,
                ;
            } else {
                assert(sig * (up * den) < num * down < (sig + 1) * (up * den)) by (nonlinear_arith)
                    requires
                        num * down == dividend * factor,
                        up * den == mb * factor,
                        dividend == sig * mb + rest,
                        0 < rest < mb,
                        factor > 0,
                ;
            }
        }
        let code: u32 = pack(sig, exponent, rest != 0, Ghost(num), Ghost(den));
        Self::signed(negative, code)
    }

    #[verifier::when_used_as_spec(spec_rem)]
    pub fn rem(self, other: Scalar) -> (r: Scalar)
        ensures
            r == self.spec_rem(other),
    {
        if self.is_nan() || other.is_nan() || !self.is_finite() || other.bits % SIGN == 0 {
            return Self::not_a_number();
        }
        if !other.is_finite() {
            return self;
        }
        let (ma, ea): (u32, u32) = self.parts();
        let (mb, eb): (u32, u32) = other.parts();
        let ghost sa = self.size();
        let ghost sb = other.size();
        proof {
            lemma_self_rounding(self);
            lemma_self_rounding(other);
            crate::rounding::lemma_p2_values();
            crate::rounding::lemma_p2_u128();
            crate::rounding::lemma_p2_monotone(24, 124);
        }
        let rest: u32;
        let octave: u32;
        if ea >= eb {
            let distance: u32 = ea - eb;
            let mut left: u64 = ma as u64 % mb as u64;
            let mut i: u32 = 0;
            let ghost mut quotient: int = (ma / mb) as int;
            assert(ma * crate::rounding::p2(0) == quotient * mb + left) by (nonlinear_arith)
                requires
                    crate::rounding::p2(0) == 1,
                    quotient == ma / mb,
                    left == ma % mb,
                    mb > 0,
            ;
            while i < distance
                invariant
                    i <= distance,
                    0 < mb < 0x100_0000,
                    left < mb,
                    ma * crate::rounding::p2(i as int) == quotient * mb + left,
                decreases distance - i,
            {
                let twice: u64 = 2 * left;
                proof {
                    crate::rounding::lemma_p2_step(i as int);
                    let next = (twice / mb as u64) as int;
                    assert(ma * crate::rounding::p2(i + 1) == (2 * quotient + next) * mb + twice % mb as u64) by (nonlinear_arith)
                        requires
                            ma * crate::rounding::p2(i as int) == quotient * mb + left,
                            crate::rounding::p2(i + 1) == 2 * crate::rounding::p2(i as int),
                            twice == 2 * left,
                            next == twice / mb as u64,
                            mb > 0,
                    ;
                    quotient = 2 * quotient + next;
                }
                left = twice % mb as u64;
                i = i + 1;
            }
            proof {
                let pb = crate::rounding::p2(eb as int);
                crate::rounding::lemma_p2_pos(eb as int);
                crate::rounding::lemma_p2_adds(distance as int, eb as int);
                assert(sa == quotient * sb + left * pb && 0 <= left * pb < sb) by (nonlinear_arith)
                    requires
                        sa == ma * crate::rounding::p2(ea as int),
                        crate::rounding::p2(ea as int) == crate::rounding::p2(distance as int) * pb,
                        ma * crate::rounding::p2(distance as int) == quotient * mb + left,
                        sb == mb * pb,
                        left < mb,
                        pb > 0,
                ;
                vstd::arithmetic::div_mod::lemma_fundamental_div_mod_converse(
                    sa,
                    sb,
                    quotient,
                    left * pb,
                );
            }
            rest = left as u32;
            octave = eb;
        } else {
            let distance: u32 = eb - ea;
            let ghost pa = crate::rounding::p2(ea as int);
            proof {
                crate::rounding::lemma_p2_pos(ea as int);
                crate::rounding::lemma_p2_adds(distance as int, ea as int);
                if distance >= 24 {
                    crate::rounding::lemma_p2_monotone(24, distance as int);
                    assert(sa == 0 * sb + ma * pa && 0 <= ma * pa < sb) by (nonlinear_arith)
                        requires
                            sa == ma * pa,
                            sb == mb * crate::rounding::p2(eb as int),
                            crate::rounding::p2(eb as int) == crate::rounding::p2(distance as int) * pa,
                            crate::rounding::p2(distance as int) >= 0x100_0000,
                            ma < 0x100_0000,
                            mb >= 1,
                            pa > 0,
                    ;
                    vstd::arithmetic::div_mod::lemma_fundamental_div_mod_converse(
                        sa,
                        sb,
                        0,
                        ma * pa,
                    );
                } else {
                    crate::rounding::lemma_p2_monotone(distance as int, 24);
                }
            }
            if distance >= 24 {
                rest = ma;
            } else {
                let step: u64 = power(distance) as u64;
                assert(0 < mb * step < 0x1_0000_0000_0000) by (nonlinear_arith)
                    requires
                        0 < mb < 0x100_0000,
                        0 < step <= 0x100_0000,
                ;
                let modulus: u64 = mb as u64 * step;
                let left: u64 = ma as u64 % modulus;
                proof {
                    let quotient = (ma as u64 / modulus) as int;
                    assert(sa == quotient * sb + left * pa && 0 <= left * pa < sb) by (nonlinear_arith)
                        requires
                            sa == ma * pa,
                            sb == mb * crate::rounding::p2(eb as int),
                            crate::rounding::p2(eb as int) == step * pa,
                            modulus == mb * step,
                            quotient == ma as u64 / modulus,
                            left == ma as u64 % modulus,
                            modulus > 0,
                            pa > 0,
                    ;
                    vstd::arithmetic::div_mod::lemma_fundamental_div_mod_converse(
                        sa,
                        sb,
                        quotient,
                        left * pa,
                    );
                    assert(left <= ma) by (nonlinear_arith)
                        requires
                            left == ma as u64 % modulus,
                            modulus > 0,
                    ;
                }
                rest = left as u32;
            }
            octave = ea;
        }
        let ghost size = rest * crate::rounding::p2(octave as int);
        assert(size == sa % sb);
        proof {
            crate::rounding::lemma_p2_pos(octave as int);
        }
        if rest == 0 {
            assert(size == 0) by (nonlinear_arith)
                requires
                    size == rest * crate::rounding::p2(octave as int),
                    rest == 0,
            ;
            Self::signed(self.is_negative(), 0)
        } else {
            assert(size > 0) by (nonlinear_arith)
                requires
                    size == rest * crate::rounding::p2(octave as int),
                    rest > 0,
                    crate::rounding::p2(octave as int) > 0,
            ;
            assert(size * 1 == rest * (crate::rounding::p2(octave as int) * 1)) by (nonlinear_arith)
                requires
                    size == rest * crate::rounding::p2(octave as int),
            ;
            let code: u32 = pack(rest as u128, octave as i32, false, Ghost(size), Ghost(1));
            Self::signed(self.is_negative(), code)
        }
    }

    #[verifier::when_used_as_spec(spec_rem_euclid)]
    pub fn rem_euclid(self, other: Scalar) -> (r: Scalar)
        ensures
            r == self.spec_rem_euclid(other),
    {
        let rest: Scalar = self.rem(other);
        if rest.lt(Scalar { bits: 0 }) {
            rest.add(other.abs())
        } else {
            rest
        }
    }

    /// A whole number.
    fn from_count(negative: bool, count: u32) -> (r: Scalar)
        ensures
            r == Self::whole(negative, count as int),
    {
        if count == 0 {
            return Self::signed(negative, 0);
        }
        let ghost size = count * one_units();
        proof {
            crate::rounding::lemma_p2_values();
            crate::rounding::lemma_p2_u128();
            crate::rounding::lemma_p2_pos(149);
            crate::rounding::lemma_p2_monotone(32, 124);
            assert(size * 1 == count * (crate::rounding::p2(149) * 1)) by (nonlinear_arith)
                requires
                    size == count * crate::rounding::p2(149),
            ;
            assert(size > 0) by (nonlinear_arith)
                requires
                    size == count * crate::rounding::p2(149),
                    count > 0,
                    crate::rounding::p2(149) > 0,
            ;
        }
        let code: u32 = pack(count as u128, 149, false, Ghost(size), Ghost(1));
        Self::signed(negative, code)
    }

    /// Splits a finite number that may have a fraction into its whole part,
    /// whether anything is left, and whether at least a half is left. There is
    /// no split of a number that is certainly whole.
    fn split(self) -> (r: Option<(u32, bool, bool)>)
        requires
            self.finite(),
        ensures
            ({
                let count = self.size() / one_units();
                let rest = self.size() % one_units();
                match r {
                    None => rest == 0 && self.size() == count * one_units() && self.magnitude()
                        >= 150 * OCTAVE,
                    Some((whole, any, half)) => whole == count && whole < 0x100_0000 && (any <==> rest
                        > 0) && (half <==> 2 * rest >= one_units()),
                }
            }),
            one_units() > 0,
    {
        let (m, e): (u32, u32) = self.parts();
        let ghost unit = one_units();
        let ghost size = self.size();
        let ghost pe = crate::rounding::p2(e as int);
        proof {
            crate::rounding::lemma_p2_pos(149);
            crate::rounding::lemma_p2_pos(e as int);
            crate::rounding::lemma_p2_values();
        }
        if e >= 149 {
            proof {
                let count = m * crate::rounding::p2(e - 149);
                crate::rounding::lemma_p2_adds(e - 149, 149);
                assert(size == count * unit + 0) by (nonlinear_arith)
                    requires
                        size == m * pe,
                        pe == crate::rounding::p2(e - 149) * unit,
                        count == m * crate::rounding::p2(e - 149),
                ;
                vstd::arithmetic::div_mod::lemma_fundamental_div_mod_converse(size, unit, count, 0);
            }
            return None;
        }
        let shift: u32 = 149 - e;
        proof {
            crate::rounding::lemma_p2_adds(shift as int, e as int);
        }
        if shift >= 32 {
            proof {
                crate::rounding::lemma_p2_monotone(32, shift as int);
                assert(0 <= 2 * size < unit) by (nonlinear_arith)
                    requires
                        size == m * pe,
                        unit == crate::rounding::p2(shift as int) * pe,
                        crate::rounding::p2(shift as int) >= 0x1_0000_0000,
                        m < 0x100_0000,
                        pe > 0,
                ;
                vstd::arithmetic::div_mod::lemma_fundamental_div_mod_converse(size, unit, 0, size);
                assert(m > 0 <==> size > 0) by (nonlinear_arith)
                    requires
                        size == m * pe,
                        pe > 0,
                ;
            }
            Some((0, m != 0, false))
        } else {
            proof {
                crate::rounding::lemma_p2_monotone(shift as int, 32);
            }
            let part: u64 = power(shift) as u64;
            let count: u64 = m as u64 / part;
            let left: u64 = m as u64 % part;
            proof {
                assert(size == count * unit + left * pe && 0 <= left * pe < unit) by (nonlinear_arith)
                    requires
                        size == m * pe,
                        unit == part * pe,
                        count == m as u64 / part,
                        left == m as u64 % part,
                        part > 0,
                        pe > 0,
                ;
                vstd::arithmetic::div_mod::lemma_fundamental_div_mod_converse(
                    size,
                    unit,
                    count as int,
                    left * pe,
                );
                assert(left > 0 <==> left * pe > 0) by (nonlinear_arith)
                    requires
                        pe > 0,
                        left >= 0,
                ;
                assert(2 * left >= part <==> 2 * (left * pe) >= unit) by (nonlinear_arith)
                    requires
                        unit == part * pe,
                        pe > 0,
                ;
                assert(count <= m && left <= m) by (nonlinear_arith)
                    requires
                        count == m as u64 / part,
                        left == m as u64 % part,
                        part > 0,
                ;
            }
            Some((count as u32, left != 0, 2 * left >= part))
        }
    }

    #[verifier::when_used_as_spec(spec_trunc)]
    pub fn trunc(self) -> (r: Scalar)
        ensures
            r == self.spec_trunc(),
    {
        if !self.is_finite() {
            return self;
        }
        proof {
            lemma_self_rounding(self);
        }
        match self.split() {
            None => {
                proof {
                    lemma_whole_itself(self);
                }
                self
            },
            Some((count, _any, _half)) => Self::from_count(self.is_negative(), count),
        }
    }

    #[verifier::when_used_as_spec(spec_floor)]
    pub fn floor(self) -> (r: Scalar)
        ensures
            r == self.spec_floor(),
    {
        if !self.is_finite() {
            return self;
        }
        let ghost unit = one_units();
        let ghost size = self.size();
        let ghost count = size / unit;
        let ghost rest = size % unit;
        let split: Option<(u32, bool, bool)> = self.split();
        proof {
            lemma_self_rounding(self);
            vstd::arithmetic::div_mod::lemma_fundamental_div_mod(size, unit);
            let up = if rest > 0 { count + 1 } else { count };
            assert(size + unit - 1 == up * unit + (if rest > 0 { rest - 1 } else { unit - 1 }))
                by (nonlinear_arith)
                requires
                    size == unit * count + rest,
                    up == if rest > 0 { count + 1 } else { count },
                    rest >= 0,
            ;
            vstd::arithmetic::div_mod::lemma_fundamental_div_mod_converse(
                size + unit - 1,
                unit,
                up,
                if rest > 0 {
                    rest - 1
                } else {
                    unit - 1
                },
            );
        }
        match split {
            None => {
                proof {
                    lemma_whole_itself(self);
                }
                self
            },
            Some((whole, any, _half)) => {
                if self.is_negative() && any {
                    Self::from_count(true, whole + 1)
                } else {
                    Self::from_count(self.is_negative(), whole)
                }
            },
        }
    }

    #[verifier::when_used_as_spec(spec_ceil)]
    pub fn ceil(self) -> (r: Scalar)
        ensures
            r == self.spec_ceil(),
    {
        self.neg().floor().neg()
    }

    #[verifier::when_used_as_spec(spec_round)]
    pub fn round(self) -> (r: Scalar)
        ensures
            r == self.spec_round(),
    {
        if !self.is_finite() {
            return self;
        }
        let ghost unit = one_units();
        let ghost size = self.size();
        let ghost count = size / unit;
        let ghost rest = size % unit;
        let split: Option<(u32, bool, bool)> = self.split();
        proof {
            lemma_self_rounding(self);
            vstd::arithmetic::div_mod::lemma_fundamental_div_mod(size, unit);
            let up = if 2 * rest >= unit { count + 1 } else { count };
            let left = if 2 * rest >= unit { 2 * rest - unit } else { 2 * rest + unit };
            assert(2 * size + unit == up * (2 * unit) + left) by (nonlinear_arith)
                requires
                    size == unit * count + rest,
                    up == if 2 * rest >= unit { count + 1 } else { count },
                    left == if 2 * rest >= unit { 2 * rest - unit } else { 2 * rest + unit },
            ;
            vstd::arithmetic::div_mod::lemma_fundamental_div_mod_converse(
                2 * size + unit,
                2 * unit,
                up,
                left,
            );
        }
        match split {
            None => {
                proof {
                    lemma_whole_itself(self);
                }
                self
            },
            Some((whole, _any, half)) => {
                if half {
                    Self::from_count(self.is_negative(), whole + 1)
                } else {
                    Self::from_count(self.is_negative(), whole)
                }
            },
        }
    }

    #[verifier::when_used_as_spec(spec_fract)]
    pub fn fract(self) -> (r: Scalar)
        ensures
            r == self.spec_fract(),
    {
        self.sub(self.trunc())
    }

    #[verifier::when_used_as_spec(spec_recip)]
    pub fn recip(self) -> (r: Scalar)
        ensures
            r == self.spec_recip(),
    {
        Scalar { bits: 0x3f80_0000 }.div(self)
    }

    #[verifier::when_used_as_spec(spec_from_u32)]
    pub fn from_u32(n: u32) -> (r: Scalar)
        ensures
            r == Self::spec_from_u32(n),
    {
        Self::from_count(false, n)
    }

    #[verifier::when_used_as_spec(spec_from_i32)]
    pub fn from_i32(n: i32) -> (r: Scalar)
        ensures
            r == Self::spec_from_i32(n),
    {
        if n < 0 {
            Self::from_count(true, (-(n as i64)) as u32)
        } else {
            Self::from_count(false, n as u32)
        }
    }

    /// The whole part of a finite number, or some number beyond 32 bits if it
    /// is beyond 32 bits.
    fn count(self) -> (r: u64)
        requires
            self.finite(),
        ensures
            ({
                let count = self.size() / one_units();
                if count <= u32::MAX {
                    r == count
                } else {
                    r > u32::MAX
                }
            }),
    {
        match self.split() {
            Some((whole, _any, _half)) => whole as u64,
            None => {
                let (m, e): (u32, u32) = self.parts();
                let ghost unit = one_units();
                let ghost size = self.size();
                proof {
                    crate::rounding::lemma_p2_values();
                    crate::rounding::lemma_p2_pos(149);
                    crate::rounding::lemma_p2_pos(e as int);
                }
                let raise: u32 = e - 149;
                let ghost count = m * crate::rounding::p2(raise as int);
                proof {
                    crate::rounding::lemma_p2_adds(raise as int, 149);
                    assert(size == count * unit + 0) by (nonlinear_arith)
                        requires
                            size == m * crate::rounding::p2(e as int),
                            crate::rounding::p2(e as int) == crate::rounding::p2(raise as int) * unit,
                            count == m * crate::rounding::p2(raise as int),
                    ;
                    vstd::arithmetic::div_mod::lemma_fundamental_div_mod_converse(
                        size,
                        unit,
                        count,
                        0,
                    );
                }
                if raise >= 32 {
                    proof {
                        crate::rounding::lemma_p2_monotone(32, raise as int);
                    }
                    if m == 0 {
                        assert(count == 0) by (nonlinear_arith)
                            requires
                                count == m * crate::rounding::p2(raise as int),
                                m == 0,
                        ;
                        0
                    } else {
                        assert(count >= 0x1_0000_0000) by (nonlinear_arith)
                            requires
                                count == m * crate::rounding::p2(raise as int),
                                m >= 1,
                                crate::rounding::p2(raise as int) >= 0x1_0000_0000,
                        ;
                        0x1_0000_0000
                    }
                } else {
                    proof {
                        crate::rounding::lemma_p2_monotone(raise as int, 32);
                    }
                    let step: u64 = power(raise) as u64;
                    assert(m * step <= 0xff_ffff * 0x1_0000_0000) by (nonlinear_arith)
                        requires
                            m <= 0xff_ffff,
                            step <= 0x1_0000_0000,
                    ;
                    m as u64 * step
                }
            },
        }
    }

    #[verifier::when_used_as_spec(spec_to_u32)]
    pub fn to_u32(self) -> (r: u32)
        ensures
            r == self.spec_to_u32(),
    {
        if self.is_nan() {
            return 0;
        }
        if self.is_negative() {
            proof {
                lemma_count_nonnegative(self);
            }
            return 0;
        }
        if !self.is_finite() {
            return u32::MAX;
        }
        proof {
            lemma_count_nonnegative(self);
        }
        let count: u64 = self.count();
        if count > u32::MAX as u64 {
            u32::MAX
        } else {
            count as u32
        }
    }

    #[verifier::when_used_as_spec(spec_to_i32)]
    pub fn to_i32(self) -> (r: i32)
        ensures
            r == self.spec_to_i32(),
    {
        if self.is_nan() {
            return 0;
        }
        if !self.is_finite() {
            return if self.is_negative() {
                i32::MIN
            } else {
                i32::MAX
            };
        }
        proof {
            lemma_count_nonnegative(self);
        }
        let count: u64 = self.count();
        if self.is_negative() {
            if count > 0x8000_0000 {
                i32::MIN
            } else {
                (-(count as i64)) as i32
            }
        } else if count > 0x7fff_ffff {
            i32::MAX
        } else {
            count as i32
        }
    }

    #[verifier::when_used_as_spec(spec_sqrt)]
    pub fn sqrt(self) -> (r: Scalar)
        ensures
            r == self.spec_sqrt(),
    {
        if self.bits % SIGN == 0 {
            return self;
        }
        if self.is_nan() || self.is_negative() {
            return Self::not_a_number();
        }
        if !self.is_finite() {
            return self;
        }
        let (m, e): (u32, u32) = self.parts();
        proof {
            crate::rounding::lemma_p2_adds(e as int, 149);
            assert(self.size() * one_units() == m * crate::rounding::p2(e + 149)) by (nonlinear_arith)
                requires
                    self.size() == m * crate::rounding::p2(e as int),
                    crate::rounding::p2(e + 149) == crate::rounding::p2(e as int) * one_units(),
            ;
        }
        Scalar { bits: pack_root(m, e + 149) }
    }
}

/// A finite number is its own rounding.
pub proof fn lemma_self_rounding(x: Scalar)
    requires
        x.finite(),
    ensures
        rounded(x.negative(), x.size(), 1) == x,
        crate::rounding::nearest(x.size(), 1) == x.magnitude(),
        x.size() >= 0,
        x.size() == 0 <==> x.zero(),
{
    crate::rounding::lemma_grid_exact(x.magnitude(), 1);
    crate::rounding::lemma_grid_monotone(0, x.magnitude());
}

/// A whole number is the whole number of its count.
proof fn lemma_whole_itself(x: Scalar)
    requires
        x.finite(),
        x.size() == (x.size() / one_units()) * one_units(),
    ensures
        Scalar::whole(x.negative(), x.size() / one_units()) == x,
{
    lemma_self_rounding(x);
    let count = x.size() / one_units();
    if count == 0 {
        assert(x.size() == 0) by (nonlinear_arith)
            requires
                x.size() == count * one_units(),
                count == 0,
        ;
    }
}

proof fn lemma_count_nonnegative(x: Scalar)
    requires
        x.magnitude() <= INFINITE,
    ensures
        x.size() / one_units() >= 0,
{
    crate::rounding::lemma_grid_monotone(0, x.magnitude());
    crate::rounding::lemma_p2_pos(149);
    vstd::arithmetic::div_mod::lemma_div_pos_is_pos(x.size(), one_units());
}

} // verus!
