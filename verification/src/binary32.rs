//! IEEE 754 binary32 numbers held as bit patterns, with their arithmetic
//! carried out on integers.
//!
//! A finite value is a sign and a natural number of units of 2^-149; every
//! operation returns the exact result rounded to the nearest representable
//! value, ties to even. Every NaN an operation produces is the one quiet
//! NaN `0x7fc0_0000`.

use vstd::prelude::*;
use vstd::arithmetic::power2::{pow2, lemma_pow2_pos, lemma_pow2_adds, lemma_pow2_strictly_increases, lemma_pow2_unfold, lemma2_to64};
use vstd::arithmetic::div_mod::{lemma_basic_div, lemma_div_multiples_vanish_quotient, lemma_div_multiples_vanish};
use crate::rounding::{binade, round_half_even, round_magnitude, round_ratio, power_of_two, lemma_binade_holds, lemma_round_at_least, lemma_round_at_most, lemma_round_half_even_holds, lemma_rounding_value};

verus! {

/// Bit pattern of the quiet NaN that operations return.
pub const NAN_BITS: u32 = 0x7fc0_0000;

/// A binary32 number, as its 32 bits: sign, eight exponent bits and
/// twenty-three fraction bits, from the top.
#[derive(Clone, Copy, Debug)]
pub struct Binary32 {
    pub bits: u32,
}

impl Binary32 {
    /// Whether the sign bit is set.
    pub open spec fn negative(self) -> bool {
        self.bits >= 0x8000_0000
    }

    /// The bits without the sign bit.
    pub open spec fn magnitude(self) -> nat {
        if self.bits >= 0x8000_0000 {
            (self.bits - 0x8000_0000) as nat
        } else {
            self.bits as nat
        }
    }

    pub open spec fn nan(self) -> bool {
        self.magnitude() > 0x7f80_0000
    }

    pub open spec fn infinite(self) -> bool {
        self.magnitude() == 0x7f80_0000
    }

    pub open spec fn finite(self) -> bool {
        self.magnitude() < 0x7f80_0000
    }

    /// The significand, with its leading one where the number is normal.
    pub open spec fn significand(self) -> nat {
        let m = self.magnitude();
        if m < 0x80_0000 {
            m
        } else {
            0x80_0000 + m % 0x80_0000
        }
    }

    /// The power of two by which the significand is scaled, counted from
    /// 2^-149.
    pub open spec fn exponent(self) -> nat {
        let m = self.magnitude();
        if m < 0x80_0000 {
            0
        } else {
            (m / 0x80_0000 - 1) as nat
        }
    }

    /// The absolute value in units of 2^-149. An infinity counts as 2^128.
    pub open spec fn scaled(self) -> nat {
        self.significand() * pow2(self.exponent())
    }

    /// The value in units of 2^-149, with its sign.
    pub open spec fn signed(self) -> int {
        if self.negative() {
            -(self.scaled() as int)
        } else {
            self.scaled() as int
        }
    }

    /// The number with the given sign and magnitude bits.
    pub open spec fn from_parts(negative: bool, magnitude: nat) -> Binary32 {
        Binary32 {
            bits: if negative {
                (magnitude + 0x8000_0000) as u32
            } else {
                magnitude as u32
            },
        }
    }

    pub open spec fn canonical_nan() -> Binary32 {
        Binary32 { bits: 0x7fc0_0000 }
    }

    /// The representable number nearest to `units` units of 2^-149.
    pub open spec fn nearest(negative: bool, units: nat) -> Binary32 {
        Self::from_parts(negative, round_magnitude(units, 1))
    }

    /// The number that stands for the integer `n`.
    pub open spec fn from_integer(n: nat) -> Binary32 {
        Self::nearest(false, n * pow2(149))
    }

    /// The integer part of a number that is neither NaN nor negative, and
    /// zero for the others.
    pub open spec fn truncated(self) -> nat {
        if self.nan() || self.negative() {
            0
        } else {
            self.scaled() / pow2(149)
        }
    }

    /// The integer part held to a byte: 255 for anything larger.
    pub open spec fn byte(self) -> u8 {
        if self.truncated() > 255 {
            255
        } else {
            self.truncated() as u8
        }
    }

    /// `self < rhs` as IEEE 754 orders numbers: false when either is NaN,
    /// and the two zeros are equal.
    pub open spec fn below(self, rhs: Binary32) -> bool {
        !self.nan() && !rhs.nan() && self.signed() < rhs.signed()
    }

    /// `self <= rhs`, false when either is NaN.
    pub open spec fn at_most(self, rhs: Binary32) -> bool {
        !self.nan() && !rhs.nan() && self.signed() <= rhs.signed()
    }

    /// The number with the sign bit cleared.
    pub open spec fn absolute(self) -> Binary32 {
        Self::from_parts(false, self.magnitude())
    }

    /// The number with the sign bit flipped.
    pub open spec fn negated(self) -> Binary32 {
        Self::from_parts(!self.negative(), self.magnitude())
    }

    /// The correctly rounded product.
    pub open spec fn product(self, rhs: Binary32) -> Binary32 {
        let negative = self.negative() != rhs.negative();
        if self.nan() || rhs.nan() {
            Self::canonical_nan()
        } else if self.infinite() || rhs.infinite() {
            if self.magnitude() == 0 || rhs.magnitude() == 0 {
                Self::canonical_nan()
            } else {
                Self::from_parts(negative, 0x7f80_0000)
            }
        } else {
            Self::from_parts(negative, round_magnitude(self.scaled() * rhs.scaled(), pow2(149)))
        }
    }

    /// The correctly rounded quotient.
    pub open spec fn quotient(self, rhs: Binary32) -> Binary32 {
        let negative = self.negative() != rhs.negative();
        if self.nan() || rhs.nan() {
            Self::canonical_nan()
        } else if self.infinite() {
            if rhs.infinite() {
                Self::canonical_nan()
            } else {
                Self::from_parts(negative, 0x7f80_0000)
            }
        } else if rhs.infinite() {
            Self::from_parts(negative, 0)
        } else if rhs.magnitude() == 0 {
            if self.magnitude() == 0 {
                Self::canonical_nan()
            } else {
                Self::from_parts(negative, 0x7f80_0000)
            }
        } else {
            Self::from_parts(negative, round_magnitude(self.scaled() * pow2(149), rhs.scaled()))
        }
    }

    pub fn from_bits(bits: u32) -> (r: Binary32)
        ensures
            r.bits == bits,
    {
        Binary32 { bits }
    }

    pub fn to_bits(self) -> (bits: u32)
        ensures
            bits == self.bits,
    {
        self.bits
    }

    pub fn is_negative(self) -> (r: bool)
        ensures
            r == self.negative(),
    {
        self.bits >= 0x8000_0000
    }

    pub(crate) fn magnitude_bits(self) -> (m: u32)
        ensures
            m == self.magnitude(),
            m < 0x8000_0000,
    {
        if self.bits >= 0x8000_0000 {
            self.bits - 0x8000_0000
        } else {
            self.bits
        }
    }

    pub fn is_nan(self) -> (r: bool)
        ensures
            r == self.nan(),
    {
        self.magnitude_bits() > 0x7f80_0000
    }

    pub fn is_infinite(self) -> (r: bool)
        ensures
            r == self.infinite(),
    {
        self.magnitude_bits() == 0x7f80_0000
    }

    pub fn is_zero(self) -> (r: bool)
        ensures
            r == (self.magnitude() == 0),
    {
        self.magnitude_bits() == 0
    }

    pub(crate) fn significand_bits(self) -> (s: u32)
        ensures
            s == self.significand(),
            s < 0x100_0000,
            self.magnitude() >= 0x80_0000 ==> s >= 0x80_0000,
            (s == 0) == (self.magnitude() == 0),
    {
        let m = self.magnitude_bits();
        if m < 0x80_0000 {
            m
        } else {
            0x80_0000 + m % 0x80_0000
        }
    }

    pub(crate) fn exponent_bits(self) -> (e: u32)
        ensures
            e == self.exponent(),
            e <= 254,
            self.finite() ==> e <= 253,
            e > 0 ==> self.magnitude() >= 0x80_0000,
    {
        let m = self.magnitude_bits();
        if m < 0x80_0000 {
            0
        } else {
            m / 0x80_0000 - 1
        }
    }

    pub(crate) fn pack(negative: bool, magnitude: u32) -> (r: Binary32)
        requires
            magnitude < 0x8000_0000,
        ensures
            r == Self::from_parts(negative, magnitude as nat),
            r.negative() == negative,
            r.magnitude() == magnitude,
    {
        Binary32 {
            bits: if negative {
                magnitude + 0x8000_0000
            } else {
                magnitude
            },
        }
    }

    pub fn abs(self) -> (r: Binary32)
        ensures
            r == self.absolute(),
    {
        Self::pack(false, self.magnitude_bits())
    }

    pub fn negate(self) -> (r: Binary32)
        ensures
            r == self.negated(),
    {
        Self::pack(!self.is_negative(), self.magnitude_bits())
    }

    pub fn multiply(self, rhs: Binary32) -> (r: Binary32)
        ensures
            r == self.product(rhs),
    {
        let negative = self.is_negative() != rhs.is_negative();
        if self.is_nan() || rhs.is_nan() {
            return Binary32 { bits: NAN_BITS };
        }
        if self.is_infinite() || rhs.is_infinite() {
            if self.is_zero() || rhs.is_zero() {
                return Binary32 { bits: NAN_BITS };
            }
            return Self::pack(negative, 0x7f80_0000);
        }
        let s1 = self.significand_bits();
        let s2 = rhs.significand_bits();
        let e1 = self.exponent_bits();
        let e2 = rhs.exponent_bits();
        proof {
            lemma2_to64();
            lemma_pow2_adds(e1 as nat, e2 as nat);
            let left = pow2(e1 as nat);
            let right = pow2(e2 as nat);
            assert((s1 * left) * (s2 * right) == (s1 * s2) * (left * right)) by (nonlinear_arith);
            assert(s1 * s2 < 0x10_0000_0000_0000) by (nonlinear_arith)
                requires
                    s1 < 0x100_0000,
                    s2 < 0x100_0000,
            ;
        }
        let n: u64 = (s1 as u64) * (s2 as u64);
        let magnitude = round_ratio(n, 1, e1 + e2, 149);
        Self::pack(negative, magnitude)
    }

    pub fn divide(self, rhs: Binary32) -> (r: Binary32)
        ensures
            r == self.quotient(rhs),
    {
        let negative = self.is_negative() != rhs.is_negative();
        if self.is_nan() || rhs.is_nan() {
            return Binary32 { bits: NAN_BITS };
        }
        if self.is_infinite() {
            if rhs.is_infinite() {
                return Binary32 { bits: NAN_BITS };
            }
            return Self::pack(negative, 0x7f80_0000);
        }
        if rhs.is_infinite() {
            return Self::pack(negative, 0);
        }
        if rhs.is_zero() {
            if self.is_zero() {
                return Binary32 { bits: NAN_BITS };
            }
            return Self::pack(negative, 0x7f80_0000);
        }
        let s1 = self.significand_bits();
        let s2 = rhs.significand_bits();
        let e1 = self.exponent_bits();
        let e2 = rhs.exponent_bits();
        proof {
            lemma_pow2_adds(e1 as nat, 149);
            let own = pow2(e1 as nat);
            let unit = pow2(149);
            assert((s1 * own) * unit == s1 * (own * unit)) by (nonlinear_arith);
        }
        let magnitude = round_ratio(s1 as u64, s2 as u64, e1 + 149, e2);
        Self::pack(negative, magnitude)
    }

    /// The number that stands for `n`; every byte is represented exactly.
    pub fn from_u8(n: u8) -> (r: Binary32)
        ensures
            r == Self::from_integer(n as nat),
    {
        proof {
            lemma2_to64();
        }
        let magnitude = round_ratio(n as u64, 1, 149, 0);
        Self::pack(false, magnitude)
    }

    /// The integer part, with NaN and negative numbers taken to zero and
    /// large numbers to the largest `u32`.
    pub fn to_u32(self) -> (r: u32)
        ensures
            r == (if self.truncated() > 0xffff_ffff {
                0xffff_ffff
            } else {
                self.truncated()
            }),
    {
        if self.is_nan() || self.is_negative() {
            return 0;
        }
        let s = self.significand_bits();
        let e = self.exponent_bits();
        let ghost pe = pow2(e as nat);
        proof {
            lemma2_to64();
            lemma_pow2_pos(e as nat);
            lemma_pow2_pos(149);
        }
        if e >= 158 {
            proof {
                lemma_pow2_adds(149, 9);
                if e > 158 {
                    lemma_pow2_strictly_increases(158, e as nat);
                }
                let p = pow2(149);
                assert(s * pe >= 0x1_0000_0000 * p) by (nonlinear_arith)
                    requires
                        s >= 0x80_0000,
                        pe >= p * 0x200,
                        p > 0,
                ;
                assert((s * pe) / (p as int) >= 0x1_0000_0000) by (nonlinear_arith)
                    requires
                        s * pe >= 0x1_0000_0000 * p,
                        p > 0,
                ;
            }
            0xffff_ffff
        } else if e >= 149 {
            let f: u128 = power_of_two(e - 149);
            proof {
                lemma_pow2_adds((e - 149) as nat, 149);
                if e < 157 {
                    lemma_pow2_strictly_increases((e - 149) as nat, 8);
                }
                let p = pow2(149);
                assert(s * pe == (s * f) * p) by (nonlinear_arith)
                    requires
                        pe == f * p,
                ;
                lemma_div_multiples_vanish((s * f) as int, p as int);
                assert(s * f < 0x1_0000_0000) by (nonlinear_arith)
                    requires
                        s < 0x100_0000,
                        f <= 0x100,
                ;
            }
            ((s as u128) * f) as u32
        } else if e <= 125 {
            proof {
                lemma_pow2_adds(e as nat, 24);
                if e < 125 {
                    lemma_pow2_strictly_increases((e + 24) as nat, 149);
                }
                let p = pow2(149);
                assert(s * pe < p) by (nonlinear_arith)
                    requires
                        s < 0x100_0000,
                        pe * 0x100_0000 <= p,
                        pe > 0,
                ;
                assert(0 <= s * pe) by (nonlinear_arith)
                    requires
                        s >= 0,
                        pe > 0,
                ;
                lemma_basic_div((s * pe) as int, p as int);
            }
            0
        } else {
            let f: u128 = power_of_two(149 - e);
            proof {
                lemma_pow2_adds(e as nat, (149 - e) as nat);
                lemma_pow2_pos((149 - e) as nat);
                lemma_div_multiples_vanish_quotient(pe as int, s as int, f as int);
                assert(s * pe == pe * s) by (nonlinear_arith);
            }
            ((s as u128) / f) as u32
        }
    }

    /// The integer part, with NaN and negative numbers taken to zero and
    /// large numbers to 255.
    pub fn to_u8(self) -> (r: u8)
        ensures
            r == self.byte(),
    {
        let wide = self.to_u32();
        if wide > 255 {
            255
        } else {
            wide as u8
        }
    }
}


/// The value of a number given by its exponent and significand: with
/// magnitude bits `k * 2^23 + m`, where `m` carries the leading one of a
/// normal number, the value is `m * 2^k` units.
pub proof fn lemma_value_of_parts(negative: bool, k: nat, m: nat)
    requires
        m <= 0x100_0000,
        k > 0 ==> m >= 0x80_0000,
        k * 0x80_0000 + m <= 0x7f80_0000,
    ensures
        Binary32::from_parts(negative, k * 0x80_0000 + m).scaled() == m * pow2(k),
        Binary32::from_parts(negative, k * 0x80_0000 + m).magnitude() == k * 0x80_0000 + m,
        Binary32::from_parts(negative, k * 0x80_0000 + m).negative() == negative,
{
    lemma2_to64();
    let x = Binary32::from_parts(negative, k * 0x80_0000 + m);
    assert(x.magnitude() == k * 0x80_0000 + m);
    if m < 0x80_0000 {
        assert(x.exponent() == 0 && x.significand() == m);
    } else if m < 0x100_0000 {
        assert(x.exponent() == k && x.significand() == m);
    } else {
        assert(x.exponent() == k + 1 && x.significand() == 0x80_0000);
        lemma_pow2_unfold(k + 1);
        assert(0x80_0000 * pow2(k + 1) == 0x100_0000 * pow2(k)) by (nonlinear_arith)
            requires
                pow2(k + 1) == 2 * pow2(k),
        ;
    }
}

/// Rounding does not fall below a number that the quotient reaches.
pub proof fn lemma_round_at_least_value(n: nat, d: nat, g: Binary32)
    requires
        d > 0,
        !g.nan(),
        n >= g.scaled() * d,
    ensures
        round_magnitude(n, d) >= g.magnitude(),
{
    let k = g.exponent();
    let m = g.significand();
    assert(g.magnitude() == k * 0x80_0000 + m);
    assert(m * (d * pow2(k)) == (m * pow2(k)) * d) by (nonlinear_arith);
    lemma_round_at_least(n, d, k, m);
}

/// Rounding does not rise above a number that bounds the quotient.
pub proof fn lemma_round_at_most_value(n: nat, d: nat, g: Binary32)
    requires
        d > 0,
        !g.nan(),
        n <= g.scaled() * d,
    ensures
        round_magnitude(n, d) <= g.magnitude(),
{
    let k = g.exponent();
    let m = g.significand();
    assert(g.magnitude() == k * 0x80_0000 + m);
    assert(m * (d * pow2(k)) == (m * pow2(k)) * d) by (nonlinear_arith);
    lemma_round_at_most(n, d, k, m);
}

/// A finite rounding of a quotient of at least 2^23 units is within one
/// part in 2^24 of the quotient.
pub proof fn lemma_round_relative(n: nat, d: nat)
    requires
        d > 0,
        n >= 0x80_0000 * d,
        round_magnitude(n, d) < 0x7f80_0000,
    ensures
        0x100_0000 * (Binary32::from_parts(false, round_magnitude(n, d)).scaled() * d - n) <= n,
        0x100_0000 * (n - Binary32::from_parts(false, round_magnitude(n, d)).scaled() * d) <= n,
{
    lemma2_to64();
    let k = binade(n, d);
    lemma_binade_holds(n, d);
    lemma_pow2_pos(k);
    let dd = d * pow2(k);
    assert(dd > 0) by (nonlinear_arith)
        requires
            dd == d * pow2(k),
            d > 0,
            pow2(k) > 0,
    ;
    let m = round_half_even(n, dd);
    lemma_round_half_even_holds(n, dd);
    let md = m * dd;
    lemma_pow2_adds(23, k);
    lemma_pow2_adds(24, k);
    assert(pow2(23 + k) * d == 0x80_0000 * dd && pow2(24 + k) * d == 0x100_0000 * dd)
        by (nonlinear_arith)
        requires
            dd == d * pow2(k),
            pow2(23 + k) == 0x80_0000 * pow2(k),
            pow2(24 + k) == 0x100_0000 * pow2(k),
    ;
    assert(k == 0 ==> dd == d) by (nonlinear_arith)
        requires
            dd == d * pow2(k),
            k == 0 ==> pow2(k) == 1,
    ;
    assert(0x80_0000 * dd <= n);
    assert(0x80_0000 <= m <= 0x100_0000) by (nonlinear_arith)
        requires
            md == m * dd,
            2 * md - dd <= 2 * n,
            2 * n <= 2 * md + dd,
            0x80_0000 * dd <= n,
            n < 0x100_0000 * dd,
            dd > 0,
    ;
    lemma_value_of_parts(false, k, m);
    let s = Binary32::from_parts(false, round_magnitude(n, d)).scaled();
    assert(s * d == md) by (nonlinear_arith)
        requires
            s == m * pow2(k),
            md == m * dd,
            dd == d * pow2(k),
    ;
}

/// A number `n * 2^e` units with `n` below 2^24 is representable, so the
/// nearest number to it is the number itself.
pub proof fn lemma_nearest_exact(negative: bool, n: nat, e: nat)
    requires
        n < 0x100_0000,
        e <= 253,
    ensures
        Binary32::nearest(negative, n * pow2(e)).scaled() == n * pow2(e),
        Binary32::nearest(negative, n * pow2(e)).negative() == negative,
        Binary32::nearest(negative, n * pow2(e)).finite(),
    decreases e,
{
    lemma2_to64();
    if n >= 0x80_0000 || e == 0 {
        assert(n * pow2(0) == n && 1 * pow2(0) == 1 && n * 1 == n);
        lemma_rounding_value(n, 1, e, 0, 0, 0, e, n);
        lemma_value_of_parts(negative, e, n);
    } else {
        lemma_pow2_unfold(e);
        assert(n * pow2(e) == (2 * n) * pow2((e - 1) as nat)) by (nonlinear_arith)
            requires
                pow2(e) == 2 * pow2((e - 1) as nat),
        ;
        lemma_nearest_exact(negative, 2 * n, (e - 1) as nat);
    }
}

/// An integer below 2^24 is represented exactly.
pub proof fn lemma_integer_exact(n: nat)
    requires
        n < 0x100_0000,
    ensures
        Binary32::from_integer(n).scaled() == n * pow2(149),
        !Binary32::from_integer(n).negative(),
        Binary32::from_integer(n).finite(),
{
    lemma_nearest_exact(false, n, 149);
}

/// The value grows with the magnitude bits.
pub proof fn lemma_scaled_increases(x: Binary32, y: Binary32)
    requires
        x.magnitude() < y.magnitude(),
    ensures
        x.scaled() < y.scaled(),
{
    lemma2_to64();
    let sx = x.significand();
    let sy = y.significand();
    let px = pow2(x.exponent());
    let py = pow2(y.exponent());
    lemma_pow2_pos(x.exponent());
    lemma_pow2_pos(y.exponent());
    if x.exponent() == y.exponent() {
        assert(sx * px < sy * py) by (nonlinear_arith)
            requires
                sx < sy,
                px == py,
                px > 0,
        ;
    } else {
        lemma_pow2_strictly_increases(x.exponent(), y.exponent());
        lemma_pow2_unfold(x.exponent() + 1);
        if x.exponent() + 1 < y.exponent() {
            lemma_pow2_strictly_increases(x.exponent() + 1, y.exponent());
        }
        assert(sx * px < sy * py) by (nonlinear_arith)
            requires
                sx < 0x100_0000,
                sy >= 0x80_0000,
                2 * px <= py,
                px > 0,
        ;
    }
}

/// Only the two zeros have the value zero.
pub proof fn lemma_scaled_zero(x: Binary32)
    ensures
        (x.scaled() == 0) == (x.magnitude() == 0),
{
    lemma2_to64();
    if x.magnitude() > 0 {
        lemma_scaled_increases(Binary32 { bits: 0 }, x);
    } else {
        assert(x.scaled() == 0) by (nonlinear_arith)
            requires
                x.scaled() == x.significand() * pow2(x.exponent()),
                x.significand() == 0,
        ;
    }
}

impl Binary32 {
    pub fn less_than(self, rhs: Binary32) -> (r: bool)
        ensures
            r == self.below(rhs),
    {
        if self.is_nan() || rhs.is_nan() {
            return false;
        }
        let a = self.magnitude_bits();
        let b = rhs.magnitude_bits();
        proof {
            lemma_scaled_zero(self);
            lemma_scaled_zero(rhs);
            if a < b {
                lemma_scaled_increases(self, rhs);
            }
            if b < a {
                lemma_scaled_increases(rhs, self);
            }
        }
        if self.is_negative() {
            if rhs.is_negative() {
                b < a
            } else {
                a != 0 || b != 0
            }
        } else {
            if rhs.is_negative() {
                false
            } else {
                a < b
            }
        }
    }

    pub fn less_or_equal(self, rhs: Binary32) -> (r: bool)
        ensures
            r == self.at_most(rhs),
    {
        if self.is_nan() || rhs.is_nan() {
            return false;
        }
        let a = self.magnitude_bits();
        let b = rhs.magnitude_bits();
        proof {
            lemma_scaled_zero(self);
            lemma_scaled_zero(rhs);
            if a < b {
                lemma_scaled_increases(self, rhs);
            }
            if b < a {
                lemma_scaled_increases(rhs, self);
            }
        }
        if self.is_negative() {
            if rhs.is_negative() {
                b <= a
            } else {
                true
            }
        } else {
            if rhs.is_negative() {
                a == 0 && b == 0
            } else {
                a <= b
            }
        }
    }
}

} // verus!
