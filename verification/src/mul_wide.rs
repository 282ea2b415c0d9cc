//! The full product of two fixed-width integers.

use crate::arith::{
    lemma_limbs_value_update, lemma_limbs_value_zero, lemma_radix_pow_add, limbs_value, radix_pow,
};
use crate::uint::WideInt;
use crate::wide::{mac_at, pair_value};
use vstd::prelude::*;

verus! {

impl<const LIMBS: usize> WideInt<LIMBS> {
    /// The product `self * rhs` in full, as its low and its high half.
    pub fn mul_wide(&self, rhs: &Self) -> (r: (Self, Self))
        ensures
            r.0.value() + r.1.value() * Self::radix() == self.value() * rhs.value(),
    {
        let ghost n = LIMBS as nat;
        let ghost full = rhs.value();
        let mut lo = [0u32; LIMBS];
        let mut hi = [0u32; LIMBS];
        let mut i: usize = 0;
        proof {
            lemma_limbs_value_zero(lo@, n);
            lemma_limbs_value_zero(hi@, n);
            assert(0 * radix_pow(n) == 0) by (nonlinear_arith);
            assert(limbs_value(self.limbs@, 0) == 0);
            assert(0 * full == 0) by (nonlinear_arith);
        }
        while i < LIMBS
            invariant
                i <= LIMBS,
                n == LIMBS,
                full == rhs.value(),
                pair_value(lo@, hi@, n) == limbs_value(self.limbs@, i as nat) * full,
                forall|k: int| i <= k < LIMBS ==> hi@[k] == 0,
            decreases LIMBS - i,
        {
            let ghost done = limbs_value(self.limbs@, i as nat) * full;
            let ghost digit = self.limbs@[i as int] as nat;
            let ghost shift = radix_pow(i as nat);
            let mut carry: u32 = 0;
            let mut j: usize = 0;
            proof {
                assert(limbs_value(rhs.limbs@, 0) == 0);
                assert(digit * 0 * shift == 0) by (nonlinear_arith);
                assert(0 * radix_pow(i as nat) == 0) by (nonlinear_arith);
            }
            while j < LIMBS
                invariant
                    i < LIMBS,
                    j <= LIMBS,
                    n == LIMBS,
                    digit == self.limbs@[i as int],
                    shift == radix_pow(i as nat),
                    pair_value(lo@, hi@, n) + carry * radix_pow((i + j) as nat) == done + digit
                        * limbs_value(rhs.limbs@, j as nat) * shift,
                    forall|k: int| i <= k < LIMBS ==> hi@[k] == 0,
                decreases LIMBS - j,
            {
                let ghost before = pair_value(lo@, hi@, n);
                let ghost partial = limbs_value(rhs.limbs@, j as nat);
                let ghost factor = rhs.limbs@[j as int] as nat;
                let ghost inner = radix_pow(j as nat);
                let ghost old_carry = carry;
                let next = mac_at(&mut lo, &mut hi, i, j, self.limbs[i], rhs.limbs[j], carry);
                proof {
                    lemma_radix_pow_add(i as nat, j as nat);
                    let after = pair_value(lo@, hi@, n);
                    let top = radix_pow((i + j + 1) as nat);
                    assert(after + next * top == done + digit * (partial + factor * inner) * shift)
                        by (nonlinear_arith)
                        requires
                            after + next * top == before + (digit * factor + old_carry) * (shift
                                * inner),
                            before + old_carry * (shift * inner) == done + digit * partial * shift,
                    ;
                }
                carry = next;
                j += 1;
            }
            let ghost hi0 = hi@;
            hi[i] = carry;
            proof {
                lemma_radix_pow_add(i as nat, n);
                lemma_limbs_value_update(hi0, i as nat, carry, n);
                let r = radix_pow(n);
                let before = limbs_value(hi0, n);
                let after = limbs_value(hi@, n);
                let low = limbs_value(lo@, n);
                let partial = limbs_value(self.limbs@, i as nat);
                assert(0 * shift == 0) by (nonlinear_arith);
                assert(low + after * r == (partial + digit * shift) * full) by (nonlinear_arith)
                    requires
                        after == before + carry * shift,
                        low + before * r + carry * (shift * r) == partial * full + digit * full
                            * shift,
                ;
            }
            i += 1;
        }
        (WideInt { limbs: lo }, WideInt { limbs: hi })
    }
}

} // verus!
