//! The inverse of a value in Montgomery form.

use crate::arith::radix_pow;
use crate::ct_choice::CtChoice;
use crate::inv_mod::coprime;
use crate::modmath::{lemma_cancel_radix, lemma_congruent_mul, lemma_montgomery_reduce_congruent};
use crate::modular::mul::mul_montgomery_form;
use crate::modular::reduction::reduction_ready;
use crate::uint::WideInt;
use vstd::arithmetic::div_mod::{lemma_mod_bound, lemma_mod_twice};
use vstd::prelude::*;

verus! {

/// The inverse of `x` as values in Montgomery form go, with whether there is
/// one: for `x` the Montgomery form of `a`, the Montgomery form of the inverse
/// of `a`. `r3` is the cube of `2^(32 LIMBS)` modulo `modulus`. Where there is
/// no inverse, the number returned is below the modulus and nothing more is
/// said of it.
///
/// `r_inv`, the inverse of `2^(32 LIMBS)` modulo `modulus`, belongs to the
/// parameters of a modulus; the reduction used here does not read it.
#[allow(unused_variables)]
pub fn inv_montgomery_form<const LIMBS: usize>(
    x: &WideInt<LIMBS>,
    modulus: &WideInt<LIMBS>,
    r3: &WideInt<LIMBS>,
    mod_neg_inv: u32,
    r_inv: &WideInt<LIMBS>,
) -> (r: (WideInt<LIMBS>, CtChoice))
    requires
        reduction_ready(modulus, mod_neg_inv),
        r3.value() == (WideInt::<LIMBS>::radix() * WideInt::<LIMBS>::radix() * WideInt::<
            LIMBS,
        >::radix()) % modulus.value(),
    ensures
        r.0.value() < modulus.value(),
        r.1.is_true() == coprime(x.value(), modulus.value()),
        r.1.is_true() ==> (r.0.value() * x.value()) % modulus.value() == (WideInt::<LIMBS>::radix()
            * WideInt::<LIMBS>::radix()) % modulus.value(),
{
    let (inverse, is_some) = x.inv_odd_mod(modulus);
    proof {
        let m = modulus.value();
        let whole = radix_pow(LIMBS as nat);
        modulus.lemma_value_bound();
        lemma_mod_bound((whole * whole * whole) as int, m as int);
        assert(inverse.value() * r3.value() < m * whole) by (nonlinear_arith)
            requires
                inverse.value() < m,
                r3.value() < m,
                m < whole,
        ;
    }
    let r = mul_montgomery_form(&inverse, r3, modulus, mod_neg_inv);
    proof {
        if is_some.is_true() {
            let m = modulus.value() as int;
            let whole = radix_pow(LIMBS as nat) as int;
            let v = inverse.value() as int;
            let xi = x.value() as int;
            let cube = r3.value() as int;
            let res = r.value() as int;
            // res * whole is congruent to v * cube, and v * x to one.
            lemma_montgomery_reduce_congruent((v * cube) as nat, m as nat, LIMBS as nat);
            lemma_congruent_mul(res * whole, v * cube, xi, m);
            assert((v * cube) * xi == (xi * v) * cube) by (nonlinear_arith);
            lemma_congruent_mul(xi * v, 1, cube, m);
            assert(1 * cube == cube);
            lemma_mod_twice(whole * whole * whole, m);
            assert((res * whole) * xi == (res * xi) * whole) by (nonlinear_arith);
            assert(whole * whole * whole == (whole * whole) * whole) by (nonlinear_arith);
            lemma_cancel_radix(res * xi, whole * whole, m as nat, LIMBS as nat);
        }
    }
    (r, is_some)
}

} // verus!
