//! Conversion of a number into Montgomery form and back.

use crate::arith::{lemma_radix_pow_positive, radix_pow};
use crate::modmath::{
    lemma_congruent_mul, lemma_montgomery_reduce_unique, montgomery_form, montgomery_reduce,
};
use crate::modular::reduction::{montgomery_reduction, reduction_ready};
use crate::uint::WideInt;
use vstd::arithmetic::div_mod::{lemma_mod_bound, lemma_mod_twice, lemma_mul_mod_noop_left};
use vstd::prelude::*;

verus! {

/// The Montgomery form of `a`: `a * 2^(32 LIMBS)` modulo `modulus`. `r2` is the
/// square of `2^(32 LIMBS)` modulo `modulus`.
pub fn into_montgomery_form<const LIMBS: usize>(
    a: &WideInt<LIMBS>,
    r2: &WideInt<LIMBS>,
    modulus: &WideInt<LIMBS>,
    mod_neg_inv: u32,
) -> (r: WideInt<LIMBS>)
    requires
        reduction_ready(modulus, mod_neg_inv),
        r2.value() == (WideInt::<LIMBS>::radix() * WideInt::<LIMBS>::radix()) % modulus.value(),
    ensures
        r.value() == montgomery_form(a.value(), modulus.value(), LIMBS as nat),
        r.value() < modulus.value(),
{
    let product = a.mul_wide(r2);
    proof {
        let m = modulus.value();
        let whole = radix_pow(LIMBS as nat);
        let x = a.value();
        let square = r2.value();
        a.lemma_value_bound();
        lemma_radix_pow_positive(LIMBS as nat);
        lemma_mod_bound((whole * whole) as int, m as int);
        assert(x * square < m * whole) by (nonlinear_arith)
            requires
                x < whole,
                square < m,
        ;
        let form = montgomery_form(x, m, LIMBS as nat);
        lemma_mod_bound((x * whole) as int, m as int);
        lemma_mul_mod_noop_left((x * whole) as int, whole as int, m as int);
        assert((x * whole) * whole == (whole * whole) * x) by (nonlinear_arith);
        lemma_mod_twice((whole * whole) as int, m as int);
        lemma_congruent_mul((whole * whole) as int, square as int, x as int, m as int);
        assert(square * x == x * square) by (nonlinear_arith);
        lemma_montgomery_reduce_unique(x * square, m, LIMBS as nat, form);
    }
    montgomery_reduction::<LIMBS>(&product, modulus, mod_neg_inv)
}

/// The number whose Montgomery form `a` is: `a / 2^(32 LIMBS)` modulo
/// `modulus`.
pub fn from_montgomery_form<const LIMBS: usize>(
    a: &WideInt<LIMBS>,
    modulus: &WideInt<LIMBS>,
    mod_neg_inv: u32,
) -> (r: WideInt<LIMBS>)
    requires
        reduction_ready(modulus, mod_neg_inv),
    ensures
        r.value() == montgomery_reduce(a.value(), modulus.value(), LIMBS as nat),
        r.value() < modulus.value(),
{
    let zero = WideInt::<LIMBS>::zero();
    proof {
        let m = modulus.value();
        let whole = radix_pow(LIMBS as nat);
        a.lemma_value_bound();
        assert(0 * whole == 0) by (nonlinear_arith);
        assert(whole <= m * whole) by (nonlinear_arith)
            requires
                m >= 1,
        ;
    }
    montgomery_reduction::<LIMBS>(&(*a, zero), modulus, mod_neg_inv)
}

} // verus!
