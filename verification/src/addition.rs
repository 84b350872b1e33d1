//! Sum and difference of binary32 numbers.

use vstd::prelude::*;
use vstd::arithmetic::power2::{pow2, lemma_pow2_pos, lemma_pow2_adds, lemma_pow2_unfold, lemma_pow2_strictly_increases, lemma2_to64};
use crate::binary32::{Binary32, NAN_BITS, lemma_scaled_zero};
use crate::rounding::{round_magnitude, round_ratio, power_of_two, in_binade, is_nearest_even, lemma_round_magnitude};

verus! {

/// A term below an eighth of the last place of a normal number leaves it
/// unchanged: `significand * 2^exponent` plus or minus `small` rounds back
/// to the number itself.
pub proof fn lemma_absorbed(significand: nat, exponent: nat, small: nat, subtract: bool)
    requires
        0x80_0000 <= significand < 0x100_0000,
        2 <= exponent <= 253,
        8 * small < pow2(exponent),
    ensures
        round_magnitude(
            if subtract {
                (significand * pow2(exponent) - small) as nat
            } else {
                significand * pow2(exponent) + small
            },
            1,
        ) == exponent * 0x80_0000 + significand,
{
    lemma2_to64();
    let p = pow2(exponent);
    let h = significand * p;
    lemma_pow2_pos(exponent);
    lemma_pow2_adds(24, exponent);
    lemma_pow2_adds(23, exponent);
    assert(h >= 0x80_0000 * p && h + p <= 0x100_0000 * p) by (nonlinear_arith)
        requires
            h == significand * p,
            0x80_0000 <= significand < 0x100_0000,
            p > 0,
    ;
    if subtract && significand == 0x80_0000 && small > 0 {
        let k = (exponent - 1) as nat;
        let half = pow2(k);
        lemma_pow2_unfold(exponent);
        lemma_pow2_adds(24, k);
        lemma_pow2_adds(23, k);
        let n = (h - small) as nat;
        assert(h == 0x100_0000 * half) by (nonlinear_arith)
            requires
                h == significand * p,
                significand == 0x80_0000,
                p == 2 * half,
        ;
        assert(pow2(24 + k) * 1 == 0x100_0000 * half);
        assert(pow2(23 + k) * 1 == 0x80_0000 * half);
        assert(1 * pow2(k) == half);
        assert(in_binade(n, 1, k));
        assert(is_nearest_even(0x100_0000, n, half));
        lemma_round_magnitude(n, 1, k, 0x100_0000);
    } else {
        let n: nat = if subtract {
            (h - small) as nat
        } else {
            h + small
        };
        assert(subtract && small > 0 ==> h >= 0x80_0000 * p + p) by (nonlinear_arith)
            requires
                h == significand * p,
                significand > 0x80_0000 || !(subtract && small > 0),
                p > 0,
        ;
        assert(pow2(24 + exponent) * 1 == 0x100_0000 * p);
        assert(pow2(23 + exponent) * 1 == 0x80_0000 * p);
        assert(1 * pow2(exponent) == p);
        assert(in_binade(n, 1, exponent));
        assert(is_nearest_even(significand, n, p));
        lemma_round_magnitude(n, 1, exponent, significand);
    }
}

impl Binary32 {
    /// The correctly rounded sum. An exact zero is negative only when both
    /// terms are.
    pub open spec fn sum(self, rhs: Binary32) -> Binary32 {
        if self.nan() || rhs.nan() {
            Self::canonical_nan()
        } else if self.infinite() {
            if rhs.infinite() && self.negative() != rhs.negative() {
                Self::canonical_nan()
            } else {
                Self::from_parts(self.negative(), 0x7f80_0000)
            }
        } else if rhs.infinite() {
            Self::from_parts(rhs.negative(), 0x7f80_0000)
        } else {
            let total = self.signed() + rhs.signed();
            if total == 0 {
                Self::from_parts(self.negative() && rhs.negative(), 0)
            } else if total < 0 {
                Self::nearest(true, (-total) as nat)
            } else {
                Self::nearest(false, total as nat)
            }
        }
    }

    /// The correctly rounded difference.
    pub open spec fn difference(self, rhs: Binary32) -> Binary32 {
        self.sum(rhs.negated())
    }

    /// The sum of two finite numbers, the first with the larger exponent.
    fn plus_ordered(self, low: Binary32) -> (r: Binary32)
        requires
            self.finite(),
            low.finite(),
            self.exponent() >= low.exponent(),
        ensures
            r == self.sum(low),
    {
        let sh = self.significand_bits();
        let eh = self.exponent_bits();
        let sl = low.significand_bits();
        let el = low.exponent_bits();
        let nh = self.is_negative();
        let nl = low.is_negative();
        let delta = eh - el;
        let ghost pl = pow2(el as nat);
        let ghost ph = pow2(eh as nat);
        let ghost big_units = sh * ph;
        let ghost small_units = sl * pl;
        proof {
            lemma2_to64();
            lemma_pow2_pos(el as nat);
            lemma_pow2_adds(el as nat, delta as nat);
            lemma_scaled_zero(self);
            lemma_scaled_zero(low);
        }
        if delta > 26 {
            proof {
                if delta > 27 {
                    lemma_pow2_strictly_increases(27, delta as nat);
                }
                assert(8 * small_units < ph) by (nonlinear_arith)
                    requires
                        small_units == sl * pl,
                        sl < 0x100_0000,
                        ph == pl * pow2(delta as nat),
                        pow2(delta as nat) >= 0x800_0000,
                        pl > 0,
                ;
                assert(big_units >= ph) by (nonlinear_arith)
                    requires
                        big_units == sh * ph,
                        sh >= 0x80_0000,
                        ph > 0,
                ;
                lemma_absorbed(sh as nat, eh as nat, small_units as nat, nh != nl);
            }
            return Self::pack(nh, self.magnitude_bits());
        }
        let f: u128 = power_of_two(delta);
        proof {
            if delta < 26 {
                lemma_pow2_strictly_increases(delta as nat, 26);
            }
            assert(sh * f < 0x4_0000_0000_0000) by (nonlinear_arith)
                requires
                    sh < 0x100_0000,
                    f <= 0x400_0000,
            ;
            assert(big_units == (sh * f) * pl) by (nonlinear_arith)
                requires
                    big_units == sh * ph,
                    ph == pl * f,
            ;
        }
        let big: u64 = (sh as u64) * (f as u64);
        let small: u64 = sl as u64;
        let negative: bool;
        let n: u64;
        if nh == nl {
            negative = nh;
            n = big + small;
        } else if big > small {
            negative = nh;
            n = big - small;
        } else if big < small {
            negative = nl;
            n = small - big;
        } else {
            negative = false;
            n = 0;
        }
        proof {
            assert((big + small) * pl == big * pl + small * pl) by (nonlinear_arith);
            assert((big - small) * pl == big * pl - small * pl) by (nonlinear_arith);
            assert((small - big) * pl == small * pl - big * pl) by (nonlinear_arith);
            assert(n > 0 ==> n * pl > 0) by (nonlinear_arith)
                requires
                    pl > 0,
            ;
            assert(n == 0 ==> n * pl == 0) by (nonlinear_arith);
        }
        let magnitude = round_ratio(n, 1, el, 0);
        Self::pack(negative, magnitude)
    }

    pub fn plus(self, rhs: Binary32) -> (r: Binary32)
        ensures
            r == self.sum(rhs),
    {
        if self.is_nan() || rhs.is_nan() {
            return Binary32 { bits: NAN_BITS };
        }
        if self.is_infinite() {
            if rhs.is_infinite() && self.is_negative() != rhs.is_negative() {
                return Binary32 { bits: NAN_BITS };
            }
            return Self::pack(self.is_negative(), 0x7f80_0000);
        }
        if rhs.is_infinite() {
            return Self::pack(rhs.is_negative(), 0x7f80_0000);
        }
        if self.exponent_bits() >= rhs.exponent_bits() {
            self.plus_ordered(rhs)
        } else {
            rhs.plus_ordered(self)
        }
    }

    pub fn minus(self, rhs: Binary32) -> (r: Binary32)
        ensures
            r == self.difference(rhs),
    {
        self.plus(rhs.negate())
    }
}

} // verus!
