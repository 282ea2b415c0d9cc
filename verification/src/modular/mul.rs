//! Multiplication of values in Montgomery form.

use crate::modmath::montgomery_reduce;
use crate::modular::reduction::{montgomery_reduction, reduction_ready};
use crate::uint::WideInt;
use vstd::prelude::*;

verus! {

/// The Montgomery product of `a` and `b`: `a * b / 2^(32 LIMBS)` modulo
/// `modulus`. For `a` and `b` in Montgomery form it is the Montgomery form of
/// the product of what they stand for.
pub fn mul_montgomery_form<const LIMBS: usize>(
    a: &WideInt<LIMBS>,
    b: &WideInt<LIMBS>,
    modulus: &WideInt<LIMBS>,
    mod_neg_inv: u32,
) -> (r: WideInt<LIMBS>)
    requires
        reduction_ready(modulus, mod_neg_inv),
        a.value() * b.value() < modulus.value() * WideInt::<LIMBS>::radix(),
    ensures
        r.value() == montgomery_reduce(a.value() * b.value(), modulus.value(), LIMBS as nat),
        r.value() < modulus.value(),
{
    let product = a.mul_wide(b);
    montgomery_reduction::<LIMBS>(&product, modulus, mod_neg_inv)
}

} // verus!
