//! Fixed-width unsigned integers: `LIMBS` limbs of 32 bits, least significant
//! first.

use crate::arith::{
    lemma_limbs_value_agree, lemma_limbs_value_bound, lemma_limbs_value_injective,
    lemma_limbs_value_zero, limbs_value, radix_pow,
};
use crate::ct_choice::CtChoice;
use crate::limb;
use vstd::prelude::*;

verus! {

/// An unsigned integer below `2^(32 LIMBS)`.
#[derive(Clone, Copy, Debug, PartialEq, Eq)]
pub struct WideInt<const LIMBS: usize> {
    /// The limbs, least significant first.
    pub limbs: [u32; LIMBS],
}

impl<const LIMBS: usize> WideInt<LIMBS> {
    /// The number that the limbs denote.
    pub open spec fn value(&self) -> nat {
        limbs_value(self.limbs@, LIMBS as nat)
    }

    /// `2^(32 LIMBS)`, which every value of this width is below.
    pub open spec fn radix() -> nat {
        radix_pow(LIMBS as nat)
    }

    /// Every value of this width is below `2^(32 LIMBS)`.
    pub proof fn lemma_value_bound(&self)
        ensures
            self.value() < Self::radix(),
    {
        lemma_limbs_value_bound(self.limbs@, LIMBS as nat);
    }

    /// Integers of the same value hold the same limbs.
    pub proof fn lemma_value_injective(&self, other: &Self)
        requires
            self.value() == other.value(),
        ensures
            *self == *other,
    {
        lemma_limbs_value_injective(self.limbs@, other.limbs@, LIMBS as nat);
        assert(self.limbs@ =~= other.limbs@);
        assert(self.limbs =~= other.limbs);
    }

    /// The integer with the given limbs, least significant first.
    pub fn from_words(words: [u32; LIMBS]) -> (r: Self)
        ensures
            r.limbs == words,
    {
        WideInt { limbs: words }
    }

    /// The limbs, least significant first.
    pub fn to_words(&self) -> (r: [u32; LIMBS])
        ensures
            r == self.limbs,
    {
        self.limbs
    }

    /// Zero.
    pub fn zero() -> (r: Self)
        ensures
            r.value() == 0,
    {
        let r = WideInt { limbs: [0u32; LIMBS] };
        proof {
            lemma_limbs_value_zero(r.limbs@, LIMBS as nat);
        }
        r
    }

    /// The integer whose lowest limb is `word` and whose other limbs are zero.
    pub fn from_u32(word: u32) -> (r: Self)
        requires
            LIMBS > 0,
        ensures
            r.value() == word,
    {
        let mut limbs = [0u32; LIMBS];
        let ghost zeros = limbs@;
        limbs[0] = word;
        proof {
            lemma_limbs_value_zero(zeros, LIMBS as nat);
            crate::arith::lemma_limbs_value_update(zeros, 0, word, LIMBS as nat);
            assert(radix_pow(0) == 1);
            assert((word as nat) * 1 == word) by (nonlinear_arith);
            assert((0 as nat) * 1 == 0) by (nonlinear_arith);
        }
        WideInt { limbs }
    }

    /// One.
    pub fn one() -> (r: Self)
        requires
            LIMBS > 0,
        ensures
            r.value() == 1,
    {
        Self::from_u32(1)
    }

    /// `self + rhs + carry`, as an integer of this width and the carry out of
    /// it.
    pub fn adc(&self, rhs: &Self, carry: u32) -> (r: (Self, u32))
        requires
            carry <= 1,
        ensures
            r.0.value() + r.1 * Self::radix() == self.value() + rhs.value() + carry,
            r.1 <= 1,
    {
        let mut limbs = [0u32; LIMBS];
        let mut c: u32 = carry;
        let mut i: usize = 0;
        proof {
            assert(radix_pow(0) == 1);
            assert(limbs_value(limbs@, 0) == 0);
        }
        while i < LIMBS
            invariant
                i <= LIMBS,
                c <= 1,
                limbs_value(limbs@, i as nat) + c * radix_pow(i as nat) == limbs_value(
                    self.limbs@,
                    i as nat,
                ) + limbs_value(rhs.limbs@, i as nat) + carry,
            decreases LIMBS - i,
        {
            let ghost before = limbs@;
            let (w, next) = limb::adc(self.limbs[i], rhs.limbs[i], c);
            limbs[i] = w;
            proof {
                lemma_limbs_value_agree(before, limbs@, i as nat);
                let p = radix_pow(i as nat);
                let a = self.limbs@[i as int] as nat;
                let b = rhs.limbs@[i as int] as nat;
                assert(radix_pow((i + 1) as nat) == 0x1_0000_0000 * p);
                assert(w * p + next * (0x1_0000_0000 * p) == a * p + b * p + c * p)
                    by (nonlinear_arith)
                    requires
                        w + next * 0x1_0000_0000 == a + b + c,
                ;
            }
            c = next;
            i += 1;
        }
        (WideInt { limbs }, c)
    }

    /// `self - rhs - borrow`, as an integer of this width and the borrow out of
    /// it.
    pub fn sbb(&self, rhs: &Self, borrow: u32) -> (r: (Self, u32))
        requires
            borrow <= 1,
        ensures
            r.0.value() - r.1 * Self::radix() == self.value() - rhs.value() - borrow,
            r.1 <= 1,
    {
        let mut limbs = [0u32; LIMBS];
        let mut c: u32 = borrow;
        let mut i: usize = 0;
        proof {
            assert(radix_pow(0) == 1);
            assert(limbs_value(limbs@, 0) == 0);
        }
        while i < LIMBS
            invariant
                i <= LIMBS,
                c <= 1,
                limbs_value(limbs@, i as nat) - c * radix_pow(i as nat) == limbs_value(
                    self.limbs@,
                    i as nat,
                ) - limbs_value(rhs.limbs@, i as nat) - borrow,
            decreases LIMBS - i,
        {
            let ghost before = limbs@;
            let (w, next) = limb::sbb(self.limbs[i], rhs.limbs[i], c);
            limbs[i] = w;
            proof {
                lemma_limbs_value_agree(before, limbs@, i as nat);
                let p = radix_pow(i as nat);
                let a = self.limbs@[i as int] as nat;
                let b = rhs.limbs@[i as int] as nat;
                assert(radix_pow((i + 1) as nat) == 0x1_0000_0000 * p);
                assert(w * p - next * (0x1_0000_0000 * p) == a * p - b * p - c * p)
                    by (nonlinear_arith)
                    requires
                        w - next * 0x1_0000_0000 == a - b - c,
                ;
            }
            c = next;
            i += 1;
        }
        (WideInt { limbs }, c)
    }

    /// Whether `self < rhs`, without branching on either.
    pub fn ct_lt(&self, rhs: &Self) -> (r: CtChoice)
        ensures
            r.is_true() == (self.value() < rhs.value()),
    {
        let (difference, borrow) = self.sbb(rhs, 0);
        proof {
            difference.lemma_value_bound();
        }
        CtChoice::from_lsb(borrow)
    }

    /// Whether `self == rhs`, without branching on either.
    pub fn ct_eq(&self, rhs: &Self) -> (r: CtChoice)
        ensures
            r.is_true() == (self.value() == rhs.value()),
            r.is_true() == (*self == *rhs),
    {
        let mut folded: u32 = 0;
        let mut i: usize = 0;
        while i < LIMBS
            invariant
                i <= LIMBS,
                (folded == 0) == (forall|k: int| 0 <= k < i ==> self.limbs@[k] == rhs.limbs@[k]),
            decreases LIMBS - i,
        {
            let a: u32 = self.limbs[i];
            let b: u32 = rhs.limbs[i];
            let next: u32 = folded | (a ^ b);
            assert((next == 0) == (folded == 0 && a == b)) by (bit_vector)
                requires
                    next == folded | (a ^ b),
            ;
            folded = next;
            i += 1;
        }
        proof {
            if folded == 0 {
                assert(self.limbs@ =~= rhs.limbs@);
                assert(self.limbs =~= rhs.limbs);
            } else {
                if self.value() == rhs.value() {
                    self.lemma_value_injective(rhs);
                }
            }
        }
        CtChoice::from_word_nonzero(folded).not()
    }

    /// Whether `self` is odd, without branching on it.
    pub fn ct_is_odd(&self) -> (r: CtChoice)
        requires
            LIMBS > 0,
        ensures
            r.is_true() == (self.value() % 2 == 1),
    {
        proof {
            crate::arith::lemma_limbs_value_parity(self.limbs@, LIMBS as nat);
        }
        CtChoice::from_lsb(self.limbs[0])
    }

    /// `b` when `choice` is true, else `a`, without branching on `choice`.
    pub fn conditional_select(a: &Self, b: &Self, choice: CtChoice) -> (r: Self)
        ensures
            r == if choice.is_true() { *b } else { *a },
    {
        let mut limbs = [0u32; LIMBS];
        let mut i: usize = 0;
        while i < LIMBS
            invariant
                i <= LIMBS,
                forall|k: int|
                    0 <= k < i ==> limbs@[k] == if choice.is_true() {
                        b.limbs@[k]
                    } else {
                        a.limbs@[k]
                    },
            decreases LIMBS - i,
        {
            limbs[i] = choice.select(a.limbs[i], b.limbs[i]);
            i += 1;
        }
        let r = WideInt { limbs };
        proof {
            if choice.is_true() {
                assert(r.limbs@ =~= b.limbs@);
                assert(r.limbs =~= b.limbs);
            } else {
                assert(r.limbs@ =~= a.limbs@);
                assert(r.limbs =~= a.limbs);
            }
        }
        r
    }
}

} // verus!
