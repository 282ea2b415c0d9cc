//! Parameter sets for some moduli, each with its constants proved to be what
//! the arithmetic relies on.

use crate::arith::{limbs_value, radix_pow};
use crate::modular::constant_mod::ResidueParams;
use crate::uint::WideInt;
use vstd::prelude::*;

verus! {

/// The prime `2^255 - 19`, in eight limbs.
#[derive(Clone, Copy, Debug, Default, PartialEq, Eq)]
pub struct Prime25519;

/// The prime `2^61 - 1`, in two limbs.
#[derive(Clone, Copy, Debug, Default, PartialEq, Eq)]
pub struct Mersenne61;

/// The prime `2^31 - 1`, in one limb.
#[derive(Clone, Copy, Debug, Default, PartialEq, Eq)]
pub struct Mersenne31;

/// The number 15, which is odd and not prime, in one limb.
#[derive(Clone, Copy, Debug, Default, PartialEq, Eq)]
pub struct Fifteen;

/// The powers of the radix up to the eighth, written out.
proof fn lemma_radix_powers()
    ensures
        radix_pow(0) == 1,
        radix_pow(1) == 0x1_0000_0000,
        radix_pow(2) == 0x1_0000_0000_0000_0000nat,
        radix_pow(3) == 0x1_0000_0000_0000_0000_0000_0000nat,
        radix_pow(4) == 0x1_0000_0000_0000_0000_0000_0000_0000_0000nat,
        radix_pow(5) == 0x1_0000_0000_0000_0000_0000_0000_0000_0000_0000_0000nat,
        radix_pow(6) == 0x1_0000_0000_0000_0000_0000_0000_0000_0000_0000_0000_0000_0000nat,
        radix_pow(7)
            == 0x1_0000_0000_0000_0000_0000_0000_0000_0000_0000_0000_0000_0000_0000_0000nat,
        radix_pow(8)
            == 0x1_0000_0000_0000_0000_0000_0000_0000_0000_0000_0000_0000_0000_0000_0000_0000_0000nat,
{
    assert(radix_pow(0) == 1);
    assert(radix_pow(1) == 0x1_0000_0000 * radix_pow(0));
    assert(radix_pow(2) == 0x1_0000_0000 * radix_pow(1));
    assert(radix_pow(3) == 0x1_0000_0000 * radix_pow(2));
    assert(radix_pow(4) == 0x1_0000_0000 * radix_pow(3));
    assert(radix_pow(5) == 0x1_0000_0000 * radix_pow(4));
    assert(radix_pow(6) == 0x1_0000_0000 * radix_pow(5));
    assert(radix_pow(7) == 0x1_0000_0000 * radix_pow(6));
    assert(radix_pow(8) == 0x1_0000_0000 * radix_pow(7));
}

/// What eight limbs denote, written out.
proof fn lemma_value_8(words: Seq<u32>)
    requires
        words.len() == 8,
    ensures
        limbs_value(words, 8) == words[0] + words[1] * 0x1_0000_0000 + words[2]
            * 0x1_0000_0000_0000_0000nat + words[3] * 0x1_0000_0000_0000_0000_0000_0000nat
            + words[4] * 0x1_0000_0000_0000_0000_0000_0000_0000_0000nat + words[5]
            * 0x1_0000_0000_0000_0000_0000_0000_0000_0000_0000_0000nat + words[6]
            * 0x1_0000_0000_0000_0000_0000_0000_0000_0000_0000_0000_0000_0000nat + words[7]
            * 0x1_0000_0000_0000_0000_0000_0000_0000_0000_0000_0000_0000_0000_0000_0000nat,
{
    lemma_radix_powers();
    reveal_with_fuel(limbs_value, 9);
    assert(limbs_value(words, 8) == words[0] * radix_pow(0) + words[1] * radix_pow(1) + words[2]
        * radix_pow(2) + words[3] * radix_pow(3) + words[4] * radix_pow(4) + words[5]
        * radix_pow(5) + words[6] * radix_pow(6) + words[7] * radix_pow(7));
}

/// What two limbs denote, written out.
proof fn lemma_value_2(words: Seq<u32>)
    requires
        words.len() == 2,
    ensures
        limbs_value(words, 2) == words[0] + words[1] * 0x1_0000_0000,
{
    lemma_radix_powers();
    reveal_with_fuel(limbs_value, 3);
    assert(limbs_value(words, 2) == words[0] * radix_pow(0) + words[1] * radix_pow(1));
}

impl ResidueParams<8> for Prime25519 {
    open spec fn modulus_value() -> nat {
        0x7fff_ffff_ffff_ffff_ffff_ffff_ffff_ffff_ffff_ffff_ffff_ffff_ffff_ffff_ffff_ffednat
    }

    proof fn lemma_modulus_odd() {
    }

    fn modulus() -> (r: WideInt<8>) {
        let r = WideInt::from_words(
            [
                0xffff_ffed,
                0xffff_ffff,
                0xffff_ffff,
                0xffff_ffff,
                0xffff_ffff,
                0xffff_ffff,
                0xffff_ffff,
                0x7fff_ffff,
            ],
        );
        proof {
            lemma_value_8(r.limbs@);
        }
        r
    }

    fn r() -> (r: WideInt<8>) {
        proof {
            lemma_radix_powers();
        }
        WideInt::from_u32(38)
    }

    fn r2() -> (r: WideInt<8>) {
        proof {
            lemma_radix_powers();
        }
        WideInt::from_u32(1444)
    }

    fn r3() -> (r: WideInt<8>) {
        proof {
            lemma_radix_powers();
        }
        WideInt::from_u32(54872)
    }

    fn mod_neg_inv() -> (r: u32) {
        0x286b_ca1b
    }
}

impl ResidueParams<2> for Mersenne61 {
    open spec fn modulus_value() -> nat {
        0x1fff_ffff_ffff_ffff
    }

    proof fn lemma_modulus_odd() {
    }

    fn modulus() -> (r: WideInt<2>) {
        let r = WideInt::from_words([0xffff_ffff, 0x1fff_ffff]);
        proof {
            lemma_value_2(r.limbs@);
        }
        r
    }

    fn r() -> (r: WideInt<2>) {
        proof {
            lemma_radix_powers();
        }
        WideInt::from_u32(8)
    }

    fn r2() -> (r: WideInt<2>) {
        proof {
            lemma_radix_powers();
        }
        WideInt::from_u32(64)
    }

    fn r3() -> (r: WideInt<2>) {
        proof {
            lemma_radix_powers();
        }
        WideInt::from_u32(512)
    }

    fn mod_neg_inv() -> (r: u32) {
        1
    }
}

impl ResidueParams<1> for Mersenne31 {
    open spec fn modulus_value() -> nat {
        0x7fff_ffff
    }

    proof fn lemma_modulus_odd() {
    }

    fn modulus() -> (r: WideInt<1>) {
        WideInt::from_u32(0x7fff_ffff)
    }

    fn r() -> (r: WideInt<1>) {
        proof {
            lemma_radix_powers();
        }
        WideInt::from_u32(2)
    }

    fn r2() -> (r: WideInt<1>) {
        proof {
            lemma_radix_powers();
        }
        WideInt::from_u32(4)
    }

    fn r3() -> (r: WideInt<1>) {
        proof {
            lemma_radix_powers();
        }
        WideInt::from_u32(8)
    }

    fn mod_neg_inv() -> (r: u32) {
        0x8000_0001
    }
}

impl ResidueParams<1> for Fifteen {
    open spec fn modulus_value() -> nat {
        15
    }

    proof fn lemma_modulus_odd() {
    }

    fn modulus() -> (r: WideInt<1>) {
        WideInt::from_u32(15)
    }

    fn r() -> (r: WideInt<1>) {
        proof {
            lemma_radix_powers();
        }
        WideInt::from_u32(1)
    }

    fn r2() -> (r: WideInt<1>) {
        proof {
            lemma_radix_powers();
        }
        WideInt::from_u32(1)
    }

    fn r3() -> (r: WideInt<1>) {
        proof {
            lemma_radix_powers();
        }
        WideInt::from_u32(1)
    }

    fn mod_neg_inv() -> (r: u32) {
        0x1111_1111
    }
}

} // verus!
