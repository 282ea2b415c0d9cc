//! Halving modulo an odd modulus.

use crate::uint::WideInt;
use vstd::prelude::*;

verus! {

/// Half of `a` modulo the odd `modulus`: `a / 2` for an even `a`, else
/// `(a + modulus) / 2`.
pub open spec fn mod_half(a: nat, modulus: nat) -> nat {
    if a % 2 == 0 {
        a / 2
    } else {
        (a + modulus) / 2
    }
}

/// Twice the half of `a` is congruent to `a`, and the half is below the
/// modulus.
pub proof fn lemma_mod_half(a: nat, modulus: nat)
    requires
        modulus % 2 == 1,
        a < modulus,
    ensures
        mod_half(a, modulus) < modulus,
        (2 * mod_half(a, modulus)) % modulus == a,
{
    let h = mod_half(a, modulus);
    if a % 2 == 0 {
        vstd::arithmetic::div_mod::lemma_small_mod(a, modulus);
    } else {
        assert(2 * h == a + modulus);
        vstd::arithmetic::div_mod::lemma_mod_add_multiples_vanish(a as int, modulus as int);
        vstd::arithmetic::div_mod::lemma_small_mod(a, modulus);
    }
}

/// The number `y` below `modulus` with `2 y` congruent to `a`, found without
/// branching on `a`: the modulus is added to an odd `a`, and the sum, which is
/// even, is halved.
pub fn div_by_2<const LIMBS: usize>(a: &WideInt<LIMBS>, modulus: &WideInt<LIMBS>) -> (r: WideInt<
    LIMBS,
>)
    requires
        modulus.value() % 2 == 1,
        a.value() < modulus.value(),
    ensures
        r.value() == mod_half(a.value(), modulus.value()),
        r.value() < modulus.value(),
        (2 * r.value()) % modulus.value() == a.value(),
{
    proof {
        if LIMBS == 0 {
            assert(modulus.value() == 0);
        }
    }
    let is_odd = a.ct_is_odd();
    let zero = WideInt::<LIMBS>::zero();
    let addend = WideInt::conditional_select(&zero, modulus, is_odd);
    let (sum, carry) = a.adc(&addend, 0);
    proof {
        lemma_mod_half(a.value(), modulus.value());
    }
    sum.shr1_with_carry(carry)
}

} // verus!
