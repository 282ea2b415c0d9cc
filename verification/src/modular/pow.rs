//! Powers of residues.

use crate::arith::{limbs_value, radix_pow};
use crate::ct_choice::CtChoice;
use crate::modular::constant_mod::{Residue, ResidueParams};
use crate::uint::WideInt;
use vstd::arithmetic::div_mod::{lemma_mul_mod_noop, lemma_mul_mod_noop_left};
use vstd::arithmetic::power::{lemma_pow0, lemma_pow1, lemma_pow_adds, pow};
use vstd::prelude::*;

verus! {

/// The number that the limbs of `s` from limb `i` up to limb `n` denote, limb
/// `i` being the least significant.
pub open spec fn high_limbs_value(s: Seq<u32>, i: nat, n: nat) -> nat
    decreases n - i,
{
    if i >= n {
        0
    } else {
        (s[i as int] as nat) + 0x1_0000_0000 * high_limbs_value(s, i + 1, n)
    }
}

/// The limbs below limb `i` and the limbs from it up make up the number.
proof fn lemma_high_limbs_value(s: Seq<u32>, i: nat, n: nat)
    requires
        i <= n,
    ensures
        limbs_value(s, n) == limbs_value(s, i) + radix_pow(i) * high_limbs_value(s, i, n),
    decreases n - i,
{
    if i == n {
        assert(radix_pow(i) * 0 == 0) by (nonlinear_arith);
    } else {
        lemma_high_limbs_value(s, i + 1, n);
        let p = radix_pow(i);
        let d = s[i as int] as nat;
        let above = high_limbs_value(s, i + 1, n);
        assert(radix_pow(i + 1) == 0x1_0000_0000 * p);
        assert(d * p + (0x1_0000_0000 * p) * above == p * (d + 0x1_0000_0000 * above))
            by (nonlinear_arith);
    }
}

impl<MOD: ResidueParams<LIMBS>, const LIMBS: usize> Residue<MOD, LIMBS> {
    /// The residue raised to the power `exponent`. Every bit of the exponent
    /// costs the same two multiplications, whatever the bit is.
    pub fn pow(&self, exponent: &WideInt<LIMBS>) -> (r: Self)
        ensures
            r.value() == pow(self.value() as int, exponent.value()) % (MOD::modulus_value() as int),
    {
        let ghost m = MOD::modulus_value() as int;
        let ghost base = self.value() as int;
        let ghost n = LIMBS as nat;
        let ghost mut e: nat = 0;
        let mut acc = Self::one();
        let mut i: usize = LIMBS;
        proof {
            MOD::lemma_modulus_odd();
            lemma_pow0(base);
        }
        while i > 0
            invariant
                i <= LIMBS,
                n == LIMBS,
                m == MOD::modulus_value(),
                m > 0,
                base == self.value(),
                e == high_limbs_value(exponent.limbs@, i as nat, n),
                acc.value() == pow(base, e) % m,
            decreases i,
        {
            i -= 1;
            let ghost above = e;
            let mut window: u64 = exponent.limbs[i] as u64;
            let ghost mut scale: nat = 1;
            let mut k: u32 = 0;
            proof {
                vstd::arithmetic::power2::lemma2_to64();
                assert(above * 1 == above) by (nonlinear_arith);
            }
            while k < 32
                invariant
                    k <= 32,
                    i < LIMBS,
                    m == MOD::modulus_value(),
                    m > 0,
                    base == self.value(),
                    scale == vstd::arithmetic::power2::pow2(k as nat),
                    scale <= 0x1_0000_0000,
                    window == exponent.limbs@[i as int] * scale,
                    e == above * scale + window / 0x1_0000_0000,
                    acc.value() == pow(base, e) % m,
                decreases 32 - k,
            {
                proof {
                    vstd::arithmetic::power2::lemma2_to64();
                    vstd::arithmetic::power2::lemma_pow2_unfold((k + 1) as nat);
                    if k < 31 {
                        vstd::arithmetic::power2::lemma_pow2_strictly_increases(
                            (k + 1) as nat,
                            32,
                        );
                    }
                    let w = exponent.limbs@[i as int] as nat;
                    assert(w * scale <= 0xffff_ffff * 0x8000_0000) by (nonlinear_arith)
                        requires
                            w <= 0xffff_ffff,
                            scale <= 0x8000_0000,
                    ;
                    assert(w * (2 * scale) == 2 * (w * scale)) by (nonlinear_arith);
                    assert(above * (2 * scale) == 2 * (above * scale)) by (nonlinear_arith);
                }
                let bit: u32 = ((window / 0x8000_0000) % 2) as u32;
                let squared = acc.mul(&acc);
                let multiplied = squared.mul(self);
                acc = Self::conditional_select(&squared, &multiplied, CtChoice::from_lsb(bit));
                window = window * 2;
                proof {
                    let power = pow(base, e);
                    lemma_mul_mod_noop(power, power, m);
                    lemma_pow_adds(base, e, e);
                    lemma_mul_mod_noop_left(pow(base, e + e), base, m);
                    lemma_pow_adds(base, e + e, 1);
                    lemma_pow1(base);
                    e = 2 * e + bit as nat;
                    scale = 2 * scale;
                }
                k += 1;
            }
            proof {
                vstd::arithmetic::power2::lemma2_to64();
                let w = exponent.limbs@[i as int] as nat;
                assert(window == w * 0x1_0000_0000 && above * scale == 0x1_0000_0000 * above)
                    by (nonlinear_arith)
                    requires
                        window == w * scale,
                        scale == 0x1_0000_0000,
                ;
                assert(above == high_limbs_value(exponent.limbs@, (i + 1) as nat, n));
            }
        }
        proof {
            lemma_high_limbs_value(exponent.limbs@, 0, n);
            assert(radix_pow(0) == 1);
            assert(limbs_value(exponent.limbs@, 0) == 0);
            assert(1 * high_limbs_value(exponent.limbs@, 0, n) == high_limbs_value(
                exponent.limbs@,
                0,
                n,
            )) by (nonlinear_arith);
        }
        acc
    }
}

} // verus!
