//! Remainder of binary32 numbers, with the sign of the dividend.

use vstd::prelude::*;
use vstd::arithmetic::div_mod::{lemma_mul_mod_noop_right, lemma_small_mod, lemma_truncate_middle};
use vstd::arithmetic::power2::{pow2, lemma_pow2_pos, lemma_pow2_adds, lemma_pow2_unfold, lemma2_to64};
use crate::binary32::{Binary32, NAN_BITS, lemma_scaled_increases};
use crate::rounding::round_ratio;

verus! {

impl Binary32 {
    /// What is left of `self` after taking away the largest whole multiple
    /// of `rhs` that is no larger in absolute value. The result is exact
    /// and carries the sign of `self`, also when it is zero.
    pub open spec fn remainder(self, rhs: Binary32) -> Binary32 {
        if self.nan() || rhs.nan() || self.infinite() || rhs.magnitude() == 0 {
            Self::canonical_nan()
        } else if rhs.infinite() {
            self
        } else {
            Self::nearest(self.negative(), self.scaled() % rhs.scaled())
        }
    }

    pub fn modulo(self, rhs: Binary32) -> (r: Binary32)
        ensures
            r == self.remainder(rhs),
    {
        if self.is_nan() || rhs.is_nan() || self.is_infinite() || rhs.is_zero() {
            return Binary32 { bits: NAN_BITS };
        }
        if rhs.is_infinite() {
            return self;
        }
        let negative = self.is_negative();
        let s1 = self.significand_bits();
        let e1 = self.exponent_bits();
        let s2 = rhs.significand_bits();
        let e2 = rhs.exponent_bits();
        proof {
            lemma2_to64();
        }
        if e1 < e2 {
            proof {
                lemma_scaled_increases(self, rhs);
                lemma_small_mod(self.scaled(), rhs.scaled());
            }
            let magnitude = round_ratio(s1 as u64, 1, e1, 0);
            return Self::pack(negative, magnitude);
        }
        let steps = e1 - e2;
        let mut rest: u32 = s1 % s2;
        let mut i: u32 = 0;
        proof {
            assert(s1 * pow2(0) == s1) by (nonlinear_arith)
                requires
                    pow2(0) == 1,
            ;
        }
        while i < steps
            invariant
                i <= steps,
                0 < s2 < 0x100_0000,
                rest < s2,
                rest == (s1 * pow2(i as nat)) % (s2 as int),
            decreases steps - i,
        {
            proof {
                let x = s1 * pow2(i as nat);
                lemma_mul_mod_noop_right(2, x as int, s2 as int);
                lemma_pow2_unfold((i + 1) as nat);
                assert(s1 * pow2((i + 1) as nat) == 2 * x) by (nonlinear_arith)
                    requires
                        x == s1 * pow2(i as nat),
                        pow2((i + 1) as nat) == 2 * pow2(i as nat),
                ;
            }
            rest = (((rest as u64) * 2) % (s2 as u64)) as u32;
            i = i + 1;
        }
        proof {
            let b = pow2(e2 as nat);
            let x = s1 * pow2(steps as nat);
            lemma_pow2_pos(e2 as nat);
            lemma_pow2_pos(steps as nat);
            lemma_pow2_adds(e2 as nat, steps as nat);
            assert(x >= 0) by (nonlinear_arith)
                requires
                    x == s1 * pow2(steps as nat),
                    s1 >= 0,
            ;
            lemma_truncate_middle(x as int, b as int, s2 as int);
            assert(self.scaled() == b * x) by (nonlinear_arith)
                requires
                    self.scaled() == s1 * pow2(e1 as nat),
                    pow2(e1 as nat) == b * pow2(steps as nat),
                    x == s1 * pow2(steps as nat),
            ;
            assert(rhs.scaled() == b * s2) by (nonlinear_arith)
                requires
                    rhs.scaled() == s2 * b,
            ;
            assert(rest * b == b * rest) by (nonlinear_arith);
        }
        let magnitude = round_ratio(rest as u64, 1, e2, 0);
        Self::pack(negative, magnitude)
    }
}

} // verus!
