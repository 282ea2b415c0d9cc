//! A truth value held as a mask of all zeros or all ones, so that code can
//! choose between values without branching on it.

use subtle::{Choice, ConditionallySelectable};
use vstd::prelude::*;

verus! {

/// A truth value for constant-time code.
#[derive(Clone, Copy, Debug)]
pub struct CtChoice {
    mask: u32,
}

/// Calls `u32::conditional_select` of `subtle` with the choice made from `bit`:
/// it gives `a` for the bit 0 and `b` for the bit 1.
#[verifier::external_body]
pub(crate) fn select_word(a: u32, b: u32, bit: u8) -> (r: u32)
    requires
        bit <= 1,
    ensures
        r == if bit == 1 { b } else { a },
{
    ConditionallySelectable::conditional_select(&a, &b, Choice::from(bit))
}

impl CtChoice {
    #[verifier::type_invariant]
    spec fn well_formed(self) -> bool {
        self.mask == 0 || self.mask == 0xffff_ffff
    }

    /// Whether the choice is the true one.
    pub closed spec fn is_true(self) -> bool {
        self.mask == 0xffff_ffff
    }

    /// The false choice.
    pub fn falsity() -> (r: Self)
        ensures
            !r.is_true(),
    {
        CtChoice { mask: 0 }
    }

    /// The true choice.
    pub fn truth() -> (r: Self)
        ensures
            r.is_true(),
    {
        CtChoice { mask: 0xffff_ffff }
    }

    /// The choice that is true when the lowest bit of `value` is set.
    pub fn from_lsb(value: u32) -> (r: Self)
        ensures
            r.is_true() == (value % 2 == 1),
    {
        let bit: u32 = value & 1;
        assert(bit == value % 2) by (bit_vector)
            requires
                bit == value & 1,
        ;
        let mask: u32 = 0u32.wrapping_sub(bit);
        CtChoice { mask }
    }

    /// The choice that is true when `value` is not zero.
    pub fn from_word_nonzero(value: u32) -> (r: Self)
        ensures
            r.is_true() == (value != 0),
    {
        let folded: u32 = (value | 0u32.wrapping_sub(value)) >> 31;
        assert(folded == if value != 0 { 1u32 } else { 0u32 }) by (bit_vector)
            requires
                folded == (value | (0u32.wrapping_sub(value))) >> 31,
        ;
        Self::from_lsb(folded)
    }

    /// The opposite choice.
    pub fn not(self) -> (r: Self)
        ensures
            r.is_true() == !self.is_true(),
    {
        proof {
            use_type_invariant(self);
        }
        let own: u32 = self.mask;
        let mask: u32 = !own;
        assert(own == 0 ==> mask == 0xffff_ffff) by (bit_vector)
            requires
                mask == !own,
        ;
        assert(own == 0xffff_ffff ==> mask == 0) by (bit_vector)
            requires
                mask == !own,
        ;
        CtChoice { mask }
    }

    /// The choice that is true when both are.
    pub fn and(self, other: Self) -> (r: Self)
        ensures
            r.is_true() == (self.is_true() && other.is_true()),
    {
        proof {
            use_type_invariant(self);
            use_type_invariant(other);
        }
        let own: u32 = self.mask;
        let its: u32 = other.mask;
        let mask: u32 = own & its;
        assert(mask == if own == 0xffff_ffff { its } else { 0u32 }) by (bit_vector)
            requires
                mask == own & its,
                own == 0 || own == 0xffff_ffff,
        ;
        CtChoice { mask }
    }

    /// The choice that is true when at least one is.
    pub fn or(self, other: Self) -> (r: Self)
        ensures
            r.is_true() == (self.is_true() || other.is_true()),
    {
        proof {
            use_type_invariant(self);
            use_type_invariant(other);
        }
        let own: u32 = self.mask;
        let its: u32 = other.mask;
        let mask: u32 = own | its;
        assert(mask == if own == 0xffff_ffff { 0xffff_ffffu32 } else { its }) by (bit_vector)
            requires
                mask == own | its,
                own == 0 || own == 0xffff_ffff,
        ;
        CtChoice { mask }
    }

    /// The choice as one bit: 1 when it is true, else 0.
    pub fn to_bit(self) -> (r: u8)
        ensures
            r == if self.is_true() { 1u8 } else { 0u8 },
    {
        proof {
            use_type_invariant(self);
        }
        let own: u32 = self.mask;
        let bit: u32 = own & 1;
        assert(bit == if own == 0xffff_ffff { 1u32 } else { 0u32 }) by (bit_vector)
            requires
                bit == own & 1,
                own == 0 || own == 0xffff_ffff,
        ;
        bit as u8
    }

    /// The choice as a `bool`. Branching on the result gives the choice away.
    pub fn to_bool_vartime(self) -> (r: bool)
        ensures
            r == self.is_true(),
    {
        proof {
            use_type_invariant(self);
        }
        self.mask != 0
    }

    /// `b` when the choice is true, else `a`.
    pub fn select(self, a: u32, b: u32) -> (r: u32)
        ensures
            r == if self.is_true() { b } else { a },
    {
        select_word(a, b, self.to_bit())
    }
}

} // verus!
