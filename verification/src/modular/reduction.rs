//! Montgomery reduction of a double-width number.

use crate::arith::{
    lemma_limbs_value_low, lemma_limbs_value_update, lemma_limbs_value_zero,
    lemma_radix_pow_add, lemma_radix_pow_positive, limbs_value, radix_pow,
};
use crate::limb;
use crate::modmath::{
    lemma_congruent_add, lemma_congruent_mul, lemma_congruent_shift,
    lemma_montgomery_reduce_unique, montgomery_reduce,
};
use crate::uint::WideInt;
use crate::wide::{mac_at, pair_value};
use vstd::arithmetic::div_mod::{
    lemma_fundamental_div_mod, lemma_mod_twice, lemma_mul_mod_noop_left,
};
use vstd::prelude::*;

verus! {

/// What a modulus and the constant that goes with it must satisfy for
/// Montgomery reduction: the modulus is odd, and `mod_neg_inv` is the negated
/// inverse of the modulus modulo `2^32`.
pub open spec fn reduction_ready<const LIMBS: usize>(
    modulus: &WideInt<LIMBS>,
    mod_neg_inv: u32,
) -> bool {
    &&& modulus.value() % 2 == 1
    &&& (modulus.value() * mod_neg_inv + 1) % 0x1_0000_0000 == 0
}

/// The multiplier chosen for a limb clears that limb: with `u = l * mod_neg_inv`
/// modulo `2^32`, the sum `l + u * m0` is a multiple of `2^32`.
proof fn lemma_limb_cleared(l: int, m0: int, neg_inv: int, u: int)
    requires
        u == (l * neg_inv) % 0x1_0000_0000,
        (m0 * neg_inv + 1) % 0x1_0000_0000 == 0,
    ensures
        (l + u * m0) % 0x1_0000_0000 == 0,
{
    let b = 0x1_0000_0000int;
    lemma_mod_twice(l * neg_inv, b);
    lemma_congruent_mul(u, l * neg_inv, m0, b);
    lemma_congruent_add(u * m0, (l * neg_inv) * m0, l, b);
    assert((l * neg_inv) * m0 + l == l * (m0 * neg_inv + 1)) by (nonlinear_arith);
    lemma_congruent_mul(m0 * neg_inv + 1, 0, l, b);
    assert(l * 0 == 0);
}

/// Montgomery reduction: for a double-width number `t` below `modulus *
/// 2^(32 LIMBS)`, given as its low and high half, the number below `modulus`
/// that is congruent to `t / 2^(32 LIMBS)`.
pub fn montgomery_reduction<const LIMBS: usize>(
    lower_upper: &(WideInt<LIMBS>, WideInt<LIMBS>),
    modulus: &WideInt<LIMBS>,
    mod_neg_inv: u32,
) -> (r: WideInt<LIMBS>)
    requires
        reduction_ready(modulus, mod_neg_inv),
        lower_upper.0.value() + lower_upper.1.value() * WideInt::<LIMBS>::radix()
            < modulus.value() * WideInt::<LIMBS>::radix(),
    ensures
        r.value() < modulus.value(),
        r.value() == montgomery_reduce(
            lower_upper.0.value() + lower_upper.1.value() * WideInt::<LIMBS>::radix(),
            modulus.value(),
            LIMBS as nat,
        ),
{
    let ghost n = LIMBS as nat;
    let ghost m = modulus.value();
    let ghost whole = radix_pow(n);
    let ghost t0 = lower_upper.0.value() + lower_upper.1.value() * whole;
    let mut lower: [u32; LIMBS] = lower_upper.0.limbs;
    let mut upper: [u32; LIMBS] = lower_upper.1.limbs;
    let mut meta: u32 = 0;
    let ghost mut acc: nat = 0;
    let mut i: usize = 0;
    proof {
        assert(radix_pow(0) == 1);
        assert(0 * radix_pow(n) == 0) by (nonlinear_arith);
        assert(0 * m == 0) by (nonlinear_arith);
        if LIMBS == 0 {
            assert(modulus.value() == 0);
        }
        lemma_limbs_value_low(modulus.limbs@, n);
        lemma_congruent_mul(m as int, modulus.limbs@[0] as int, mod_neg_inv as int, 0x1_0000_0000);
        lemma_congruent_add(
            m * mod_neg_inv,
            modulus.limbs@[0] * mod_neg_inv,
            1,
            0x1_0000_0000,
        );
        vstd::arithmetic::div_mod::lemma_small_mod(modulus.limbs@[0] as nat, 0x1_0000_0000);
    }
    while i < LIMBS
        invariant
            i <= LIMBS,
            n == LIMBS,
            m == modulus.value(),
            whole == radix_pow(n),
            meta <= 1,
            acc < radix_pow(i as nat),
            LIMBS > 0,
            (modulus.limbs@[0] * mod_neg_inv + 1) % 0x1_0000_0000 == 0,
            pair_value(lower@, upper@, n) + meta * radix_pow(n + i as nat) == t0 + acc * m,
            forall|k: int| 0 <= k < i ==> lower@[k] == 0,
        decreases LIMBS - i,
    {
        let ghost shift = radix_pow(i as nat);
        let ghost start = lower@[i as int];
        let ghost above = meta * radix_pow(n + i as nat);
        let u = limb::wrapping_mul(lower[i], mod_neg_inv);
        let mut carry: u32 = 0;
        let mut j: usize = 0;
        proof {
            assert(limbs_value(modulus.limbs@, 0) == 0);
            assert(u * 0 * shift == 0) by (nonlinear_arith);
            assert(0 * radix_pow(i as nat) == 0) by (nonlinear_arith);
        }
        while j < LIMBS
            invariant
                i < LIMBS,
                j <= LIMBS,
                n == LIMBS,
                shift == radix_pow(i as nat),
                pair_value(lower@, upper@, n) + carry * radix_pow((i + j) as nat) + above == t0
                    + acc * m + u * limbs_value(modulus.limbs@, j as nat) * shift,
                forall|k: int| 0 <= k < i ==> lower@[k] == 0,
                j == 0 ==> lower@[i as int] == start && carry == 0,
                j > 0 ==> lower@[i as int] == 0,
                u == (start * mod_neg_inv) % 0x1_0000_0000,
                (modulus.limbs@[0] * mod_neg_inv + 1) % 0x1_0000_0000 == 0,
            decreases LIMBS - j,
        {
            let ghost before = pair_value(lower@, upper@, n);
            let ghost partial = limbs_value(modulus.limbs@, j as nat);
            let ghost digit = modulus.limbs@[j as int] as nat;
            let ghost inner = radix_pow(j as nat);
            let ghost old_carry = carry;
            let ghost done = t0 + acc * m;
            let next = mac_at(&mut lower, &mut upper, i, j, u, modulus.limbs[j], carry);
            proof {
                lemma_radix_pow_add(i as nat, j as nat);
                let after = pair_value(lower@, upper@, n);
                let top = radix_pow((i + j + 1) as nat);
                assert(after + next * top + above == done + u * (partial + digit * inner) * shift)
                    by (nonlinear_arith)
                    requires
                        after + next * top == before + (u * digit + old_carry) * (shift * inner),
                        before + old_carry * (shift * inner) + above == done + u * partial * shift,
                ;
                if j == 0 {
                    lemma_limb_cleared(
                        start as int,
                        modulus.limbs@[0] as int,
                        mod_neg_inv as int,
                        u as int,
                    );
                    let cleared = lower@[i as int];
                    lemma_fundamental_div_mod(start + u * digit, 0x1_0000_0000);
                    assert(cleared == 0) by (nonlinear_arith)
                        requires
                            cleared + next * 0x1_0000_0000 == start + u * digit,
                            start + u * digit == 0x1_0000_0000 * ((start + u * digit)
                                / 0x1_0000_0000),
                            0 <= cleared < 0x1_0000_0000,
                    ;
                }
            }
            carry = next;
            j += 1;
        }
        let ghost upper0 = upper@;
        let (sum, next_meta) = limb::adc(upper[i], carry, meta);
        upper[i] = sum;
        proof {
            lemma_radix_pow_add(i as nat, n);
            lemma_radix_pow_add(n, i as nat);
            lemma_limbs_value_update(upper0, i as nat, sum, n);
            let low = limbs_value(lower@, n);
            let before = limbs_value(upper0, n);
            let after = limbs_value(upper@, n);
            let prev = upper0[i as int] as nat;
            let high = shift * whole;
            assert(radix_pow(n + (i + 1) as nat) == 0x1_0000_0000 * radix_pow(n + i as nat));
            assert(radix_pow(n + i as nat) == high) by (nonlinear_arith)
                requires
                    radix_pow(n + i as nat) == whole * shift,
                    high == shift * whole,
            ;
            assert(after * whole + prev * high == before * whole + sum * high)
                by (nonlinear_arith)
                requires
                    after + prev * shift == before + sum * shift,
                    high == shift * whole,
            ;
            assert(sum * high + next_meta * (0x1_0000_0000 * high) == prev * high + carry * high
                + meta * high) by (nonlinear_arith)
                requires
                    sum + next_meta * 0x1_0000_0000 == prev + carry + meta,
            ;
            assert(t0 + acc * m + u * m * shift == t0 + (acc + u * shift) * m)
                by (nonlinear_arith);
            assert(acc + u * shift < 0x1_0000_0000 * shift) by (nonlinear_arith)
                requires
                    acc < shift,
                    u <= 0xffff_ffff,
            ;
            acc = (acc + u * shift) as nat;
        }
        meta = next_meta;
        i += 1;
    }
    let high = WideInt { limbs: upper };
    proof {
        lemma_limbs_value_zero(lower@, n);
        lemma_radix_pow_add(n, n);
        lemma_radix_pow_positive(n);
        let x = high.value() + meta * whole;
        assert(x * whole == t0 + acc * m) by (nonlinear_arith)
            requires
                high.value() * whole + meta * (whole * whole) == t0 + acc * m,
                x == high.value() + meta * whole,
        ;
        assert(x < 2 * m) by (nonlinear_arith)
            requires
                x * whole == t0 + acc * m,
                t0 < m * whole,
                acc < whole,
                whole > 0,
        ;
    }
    let r = high.reduce_once(meta, modulus);
    proof {
        let x = high.value() + meta * whole;
        lemma_mul_mod_noop_left(x as int, whole as int, m as int);
        lemma_congruent_shift(t0 as int, acc as int, m as int);
        lemma_montgomery_reduce_unique(t0, m, n, r.value());
    }
    r
}

} // verus!
