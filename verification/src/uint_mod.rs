//! Addition, subtraction, negation and halving of fixed-width integers modulo
//! a modulus of the same width.

use crate::arith::{lemma_limbs_value_agree, limbs_value, radix_pow};
use crate::ct_choice::CtChoice;
use crate::uint::WideInt;
use vstd::arithmetic::div_mod::{
    lemma_fundamental_div_mod_converse, lemma_mod_add_multiples_vanish,
    lemma_mod_sub_multiples_vanish, lemma_small_mod,
};
use vstd::prelude::*;

verus! {

impl<const LIMBS: usize> WideInt<LIMBS> {
    /// Takes the number `self + carry * 2^(32 LIMBS)`, which is below twice the
    /// modulus, into the range below the modulus by subtracting the modulus
    /// at most once, without branching on the operands.
    pub fn reduce_once(&self, carry: u32, modulus: &Self) -> (r: Self)
        requires
            carry <= 1,
            self.value() + carry * Self::radix() < 2 * modulus.value(),
        ensures
            r.value() == (self.value() + carry * Self::radix()) % (modulus.value() as int),
            r.value() < modulus.value(),
    {
        let (difference, borrow) = self.sbb(modulus, 0);
        let take = CtChoice::from_lsb(carry).or(CtChoice::from_lsb(borrow).not());
        let r = Self::conditional_select(self, &difference, take);
        proof {
            let whole = Self::radix();
            let m = modulus.value();
            let x = self.value() + carry * whole;
            self.lemma_value_bound();
            difference.lemma_value_bound();
            modulus.lemma_value_bound();
            if carry == 1 {
                assert(carry * whole == whole) by (nonlinear_arith)
                    requires
                        carry == 1,
                ;
                assert(borrow * whole == whole) by (nonlinear_arith)
                    requires
                        borrow <= 1,
                        difference.value() - borrow * whole == self.value() - m,
                        self.value() + whole < 2 * m,
                        m < whole,
                        0 <= difference.value(),
                ;
            } else {
                assert(carry * whole == 0) by (nonlinear_arith)
                    requires
                        carry == 0,
                ;
                if borrow == 1 {
                    assert(borrow * whole == whole) by (nonlinear_arith)
                        requires
                            borrow == 1,
                    ;
                } else {
                    assert(borrow * whole == 0) by (nonlinear_arith)
                        requires
                            borrow == 0,
                    ;
                }
            }
            if take.is_true() {
                assert(r.value() == x - m);
                lemma_mod_sub_multiples_vanish(x as int, m as int);
                lemma_small_mod((x - m) as nat, m);
            } else {
                lemma_small_mod(x as nat, m);
            }
        }
        r
    }

    /// `self + rhs` modulo `modulus`, for operands below the modulus.
    pub fn add_mod(&self, rhs: &Self, modulus: &Self) -> (r: Self)
        requires
            self.value() < modulus.value(),
            rhs.value() < modulus.value(),
        ensures
            r.value() == (self.value() + rhs.value()) % modulus.value(),
            r.value() < modulus.value(),
    {
        let (sum, carry) = self.adc(rhs, 0);
        sum.reduce_once(carry, modulus)
    }

    /// `self - rhs` modulo `modulus`, for operands below the modulus.
    pub fn sub_mod(&self, rhs: &Self, modulus: &Self) -> (r: Self)
        requires
            self.value() < modulus.value(),
            rhs.value() < modulus.value(),
        ensures
            r.value() == (self.value() - rhs.value()) % (modulus.value() as int),
            r.value() < modulus.value(),
    {
        let (difference, borrow) = self.sbb(rhs, 0);
        let zero = Self::zero();
        let addend = Self::conditional_select(&zero, modulus, CtChoice::from_lsb(borrow));
        let (r, carry) = difference.adc(&addend, 0);
        proof {
            let whole = Self::radix();
            let m = modulus.value();
            let d = self.value() - rhs.value();
            difference.lemma_value_bound();
            r.lemma_value_bound();
            modulus.lemma_value_bound();
            if borrow == 1 {
                assert(borrow * whole == whole) by (nonlinear_arith)
                    requires
                        borrow == 1,
                ;
                assert(carry * whole == whole) by (nonlinear_arith)
                    requires
                        carry <= 1,
                        r.value() + carry * whole == d + whole + m,
                        0 <= d + m,
                        r.value() < whole,
                ;
                lemma_mod_add_multiples_vanish(d, m as int);
                lemma_small_mod((d + m) as nat, m);
            } else {
                assert(borrow * whole == 0) by (nonlinear_arith)
                    requires
                        borrow == 0,
                ;
                assert(carry * whole == 0) by (nonlinear_arith)
                    requires
                        carry <= 1,
                        r.value() + carry * whole == d,
                        d < whole,
                        0 <= r.value(),
                ;
                lemma_small_mod(d as nat, m);
            }
        }
        r
    }

    /// `-self` modulo `modulus`, for an operand below the modulus.
    pub fn neg_mod(&self, modulus: &Self) -> (r: Self)
        requires
            self.value() < modulus.value(),
        ensures
            r.value() == (-(self.value() as int)) % (modulus.value() as int),
            r.value() < modulus.value(),
    {
        let zero = Self::zero();
        zero.sub_mod(self, modulus)
    }

    /// Half of the number `self + carry * 2^(32 LIMBS)`, rounded down.
    pub fn shr1_with_carry(&self, carry: u32) -> (r: Self)
        requires
            carry <= 1,
        ensures
            r.value() == (self.value() + carry * Self::radix()) / 2,
    {
        let ghost n = LIMBS as nat;
        let mut limbs = [0u32; LIMBS];
        let mut i: usize = 0;
        proof {
            assert(radix_pow(0) == 1);
            assert(limbs_value(limbs@, 0) == 0);
            assert(limbs_value(self.limbs@, 0) == 0);
        }
        while i < LIMBS
            invariant
                i <= LIMBS,
                n == LIMBS,
                carry <= 1,
                LIMBS > 0 ==> 2 * limbs_value(limbs@, i as nat) + (self.limbs@[0] as nat) % 2
                    == limbs_value(self.limbs@, i as nat) + (if i < LIMBS {
                    (self.limbs@[i as int] as nat) % 2
                } else {
                    carry as nat
                }) * radix_pow(i as nat),
            decreases LIMBS - i,
        {
            let ghost before = limbs@;
            let here: u32 = self.limbs[i];
            let above: u32 = if i + 1 < LIMBS {
                self.limbs[i + 1]
            } else {
                carry
            };
            let w: u32 = (here >> 1) | (above << 31);
            assert(w == here / 2 + (above % 2) * 0x8000_0000) by (bit_vector)
                requires
                    w == (here >> 1) | (above << 31),
            ;
            limbs[i] = w;
            proof {
                lemma_limbs_value_agree(before, limbs@, i as nat);
                let p = radix_pow(i as nat);
                let bit = (here % 2) as nat;
                let next = (above % 2) as nat;
                assert(radix_pow((i + 1) as nat) == 0x1_0000_0000 * p);
                assert(2 * (w * p) + bit * p == here * p + next * (0x1_0000_0000 * p))
                    by (nonlinear_arith)
                    requires
                        w == here / 2 + next * 0x8000_0000,
                        bit == here % 2,
                ;
            }
            i += 1;
        }
        let r = WideInt { limbs };
        proof {
            let whole = Self::radix();
            if LIMBS > 0 {
                crate::arith::lemma_limbs_value_parity(self.limbs@, n);
                let bit = (self.limbs@[0] as nat) % 2;
                lemma_fundamental_div_mod_converse(
                    self.value() + carry * whole,
                    2,
                    r.value() as int,
                    bit as int,
                );
            } else {
                assert(radix_pow(0) == 1);
                assert(carry * 1 == carry) by (nonlinear_arith);
            }
        }
        r
    }
}

} // verus!
