//! The inverse of a fixed-width integer modulo an odd modulus, by the binary
//! extended Euclidean algorithm run for a fixed number of steps.

use crate::arith::{lemma_radix_pow_add, radix_pow};
use crate::ct_choice::CtChoice;
use crate::modmath::{lemma_congruent_mul, lemma_congruent_shift};
use crate::modular::div_by_2::{div_by_2, lemma_mod_half, mod_half};
use crate::uint::WideInt;
use vstd::arithmetic::div_mod::{
    lemma_fundamental_div_mod, lemma_mod_bound, lemma_mod_multiples_basic, lemma_mod_self_0,
    lemma_mul_mod_noop_left, lemma_small_mod, lemma_sub_mod_noop,
};
use vstd::arithmetic::power2::{lemma2_to64, lemma2_to64_rest, lemma_pow2_unfold, pow2};
use vstd::prelude::*;

verus! {

/// `d` divides both `a` and `b`.
pub open spec fn common_divisor(d: nat, a: nat, b: nat) -> bool {
    d > 0 && a % d == 0 && b % d == 0
}

/// `a` and `b` have no common divisor but one.
pub open spec fn coprime(a: nat, b: nat) -> bool {
    forall|d: nat| #[trigger] common_divisor(d, a, b) ==> d == 1
}

/// Every common divisor of `a` and `b` is one of `x` and `m`.
pub open spec fn divisors_kept(a: nat, b: nat, x: nat, m: nat) -> bool {
    forall|d: nat| #[trigger] common_divisor(d, a, b) ==> common_divisor(d, x, m)
}

/// What one step makes of `a`: an even `a` is halved; from an odd `a` the
/// smaller of `a` and `b` is taken away from the larger first.
pub open spec fn step_a(a: nat, b: nat) -> nat {
    if a % 2 == 0 {
        a / 2
    } else if a < b {
        ((b - a) / 2) as nat
    } else {
        ((a - b) / 2) as nat
    }
}

/// What one step makes of `b`: the smaller of an odd `a` and `b`.
pub open spec fn step_b(a: nat, b: nat) -> nat {
    if a % 2 == 1 && a < b {
        a
    } else {
        b
    }
}

/// What one step makes of the cofactor `u` of `a`.
pub open spec fn step_u(a: nat, b: nat, u: nat, v: nat, m: nat) -> nat {
    if a % 2 == 0 {
        mod_half(u, m)
    } else if a < b {
        mod_half(((v - u) % (m as int)) as nat, m)
    } else {
        mod_half(((u - v) % (m as int)) as nat, m)
    }
}

/// What one step makes of the cofactor `v` of `b`.
pub open spec fn step_v(a: nat, b: nat, u: nat, v: nat) -> nat {
    if a % 2 == 1 && a < b {
        u
    } else {
        v
    }
}

/// What every step keeps: `b` is odd, the cofactors are below the modulus,
/// `u x` is congruent to `a` and `v x` to `b`, and the common divisors of `a`
/// and `b` divide `x` and `m`.
pub open spec fn step_invariant(a: nat, b: nat, u: nat, v: nat, x: nat, m: nat) -> bool {
    &&& b % 2 == 1
    &&& u < m
    &&& v < m
    &&& (u * x) % m == a % m
    &&& (v * x) % m == b % m
    &&& divisors_kept(a, b, x, m)
}

/// Modulo an odd number, a factor of two cancels.
proof fn lemma_cancel_two(p: int, q: int, m: int)
    requires
        m > 0,
        m % 2 == 1,
        (2 * p) % m == (2 * q) % m,
    ensures
        p % m == q % m,
{
    let h = (m + 1) / 2;
    lemma_congruent_mul(2 * p, 2 * q, h, m);
    assert((2 * p) * h == p + p * m) by (nonlinear_arith)
        requires
            2 * h == m + 1,
    ;
    assert((2 * q) * h == q + q * m) by (nonlinear_arith)
        requires
            2 * h == m + 1,
    ;
    lemma_congruent_shift(p, p, m);
    lemma_congruent_shift(q, q, m);
}

/// A divisor of `p` and of `q` divides `2 p + q`.
proof fn lemma_divides_combination(d: nat, p: nat, q: nat)
    requires
        d > 0,
        p % d == 0,
        q % d == 0,
    ensures
        (2 * p + q) % d == 0,
{
    lemma_fundamental_div_mod(p as int, d as int);
    lemma_fundamental_div_mod(q as int, d as int);
    let k = 2 * (p / d) + q / d;
    assert(2 * p + q == k * d) by (nonlinear_arith)
        requires
            p == d * (p / d),
            q == d * (q / d),
            k == 2 * (p / d) + q / d,
    ;
    lemma_mod_multiples_basic(k as int, d as int);
}

/// The congruence of a cofactor is kept when its number and the cofactor are
/// both replaced by their difference with another pair.
proof fn lemma_difference_congruent(u: nat, v: nat, a: nat, b: nat, x: nat, m: nat)
    requires
        m > 0,
        (u * x) % m == a % m,
        (v * x) % m == b % m,
    ensures
        ((((u - v) % (m as int)) as nat) * x) % m == (a - b) % (m as int),
{
    let mi = m as int;
    lemma_mod_bound(u - v, mi);
    lemma_mul_mod_noop_left(u - v, x as int, mi);
    assert((u - v) * x == u * x - v * x) by (nonlinear_arith);
    lemma_sub_mod_noop((u * x) as int, (v * x) as int, mi);
    lemma_sub_mod_noop(a as int, b as int, mi);
}

/// One step keeps the invariant and at least halves the product of `a` and
/// `b`.
pub proof fn lemma_step(a: nat, b: nat, u: nat, v: nat, x: nat, m: nat)
    requires
        m % 2 == 1,
        step_invariant(a, b, u, v, x, m),
    ensures
        step_invariant(step_a(a, b), step_b(a, b), step_u(a, b, u, v, m), step_v(a, b, u, v), x, m),
        2 * (step_a(a, b) * step_b(a, b)) <= a * b,
{
    let mi = m as int;
    let a2 = step_a(a, b);
    let b2 = step_b(a, b);
    let u2 = step_u(a, b, u, v, m);
    let v2 = step_v(a, b, u, v);
    // The number and the cofactor before the halving.
    let a1: nat = if a % 2 == 0 {
        a
    } else if a < b {
        (b - a) as nat
    } else {
        (a - b) as nat
    };
    let u1: nat = if a % 2 == 0 {
        u
    } else if a < b {
        ((v - u) % mi) as nat
    } else {
        ((u - v) % mi) as nat
    };
    assert(a1 == 2 * a2);
    assert(u2 == mod_half(u1, m));
    if a % 2 == 0 {
    } else if a < b {
        lemma_difference_congruent(v, u, b, a, x, m);
        lemma_mod_bound(v - u, mi);
    } else {
        lemma_difference_congruent(u, v, a, b, x, m);
        lemma_mod_bound(u - v, mi);
    }
    assert((u1 * x) % m == a1 % m);
    assert(u1 < m);
    lemma_mod_half(u1, m);
    lemma_mul_mod_noop_left((2 * u2) as int, x as int, mi);
    assert((2 * u2) * x == 2 * (u2 * x)) by (nonlinear_arith);
    lemma_cancel_two((u2 * x) as int, a2 as int, mi);
    assert forall|d: nat| #[trigger] common_divisor(d, a2, b2) implies common_divisor(
        d,
        x,
        m,
    ) by {
        if a % 2 == 0 {
            lemma_divides_combination(d, a2, 0);
        } else if a < b {
            lemma_divides_combination(d, a2, b2);
        } else {
            lemma_divides_combination(d, a2, b2);
        }
        assert(common_divisor(d, a, b));
    }
    assert(2 * (a2 * b2) <= a * b) by (nonlinear_arith)
        requires
            a1 == 2 * a2,
            (a % 2 == 0 && a1 == a && b2 == b) || (a % 2 == 1 && a < b && a1 == b - a && b2 == a)
                || (a % 2 == 1 && a >= b && a1 == a - b && b2 == b),
    ;
}

/// A number that has an inverse modulo `m` is coprime to `m`.
pub proof fn lemma_inverse_gives_coprime(x: nat, v: nat, m: nat)
    requires
        m > 0,
        (x * v) % m == 1nat % m,
    ensures
        coprime(x, m),
{
    assert forall|d: nat| #[trigger] common_divisor(d, x, m) implies d == 1 by {
        lemma_fundamental_div_mod(x as int, d as int);
        lemma_fundamental_div_mod(m as int, d as int);
        lemma_fundamental_div_mod((x * v) as int, m as int);
        let q = (x * v) / m;
        let one = 1nat % m;
        let k = v * (x / d) - q * (m / d);
        assert(one == k * d) by (nonlinear_arith)
            requires
                x * v == m * q + one,
                x == d * (x / d),
                m == d * (m / d),
                k == v * (x / d) - q * (m / d),
        ;
        if m == 1 {
            assert(d == 1) by (nonlinear_arith)
                requires
                    d > 0,
                    m == 1,
                    m == d * (m / d),
            ;
        } else {
            lemma_small_mod(1, m);
            assert(d == 1) by (nonlinear_arith)
                requires
                    d > 0,
                    1 == k * d,
            ;
        }
    }
}

/// A common divisor of `y` and `m` divides the remainder of `y * c` modulo
/// `m`, so that a product coprime to `m` has factors coprime to `m`.
pub proof fn lemma_coprime_factor(y: nat, c: nat, m: nat)
    requires
        m > 0,
        coprime((y * c) % m, m),
    ensures
        coprime(y, m),
{
    assert forall|d: nat| #[trigger] common_divisor(d, y, m) implies d == 1 by {
        lemma_fundamental_div_mod(y as int, d as int);
        lemma_fundamental_div_mod(m as int, d as int);
        lemma_fundamental_div_mod((y * c) as int, m as int);
        let q = (y * c) / m;
        let rest = (y * c) % m;
        let k = c * (y / d) - q * (m / d);
        assert(rest == k * d) by (nonlinear_arith)
            requires
                y * c == m * q + rest,
                y == d * (y / d),
                m == d * (m / d),
                k == c * (y / d) - q * (m / d),
        ;
        lemma_mod_multiples_basic(k, d as int);
        assert(common_divisor(d, rest, m));
    }
}

/// When the steps have brought `a` to zero, `b` is the greatest common
/// divisor: it is one exactly when `x` and `m` are coprime, and then `v` is
/// the inverse of `x`.
pub proof fn lemma_result(b: nat, u: nat, v: nat, x: nat, m: nat)
    requires
        m % 2 == 1,
        step_invariant(0, b, u, v, x, m),
    ensures
        (b == 1) == coprime(x, m),
        b == 1 ==> (x * v) % m == 1nat % m,
{
    let mi = m as int;
    lemma_mod_self_0(b as int);
    assert(0nat % b == 0) by {
        lemma_small_mod(0, b);
    }
    assert(common_divisor(b, 0, b));
    assert(common_divisor(b, x, m));
    if b == 1 {
        assert(v * x == x * v) by (nonlinear_arith);
        lemma_inverse_gives_coprime(x, v, m);
    }
}

impl<const LIMBS: usize> WideInt<LIMBS> {
    /// One step of the algorithm on `a`, `b` and their cofactors, without
    /// branching on any of them.
    fn inv_step(a: &Self, b: &Self, u: &Self, v: &Self, modulus: &Self) -> (r: (
        Self,
        Self,
        Self,
        Self,
    ))
        requires
            modulus.value() % 2 == 1,
            u.value() < modulus.value(),
            v.value() < modulus.value(),
        ensures
            r.0.value() == step_a(a.value(), b.value()),
            r.1.value() == step_b(a.value(), b.value()),
            r.2.value() == step_u(a.value(), b.value(), u.value(), v.value(), modulus.value()),
            r.3.value() == step_v(a.value(), b.value(), u.value(), v.value()),
    {
        proof {
            if LIMBS == 0 {
                assert(modulus.value() == 0);
            }
        }
        let odd = a.ct_is_odd();
        let (a_less_b, borrow) = a.sbb(b, 0);
        let (b_less_a, other_borrow) = b.sbb(a, 0);
        let smaller = CtChoice::from_lsb(borrow);
        let swap = odd.and(smaller);
        let difference = Self::conditional_select(&a_less_b, &b_less_a, smaller);
        let a1 = Self::conditional_select(a, &difference, odd);
        let b1 = Self::conditional_select(b, a, swap);
        let u_first = Self::conditional_select(u, v, swap);
        let v_first = Self::conditional_select(v, u, swap);
        let u_less_v = u_first.sub_mod(&v_first, modulus);
        let u1 = Self::conditional_select(u, &u_less_v, odd);
        proof {
            let whole = Self::radix();
            a.lemma_value_bound();
            b.lemma_value_bound();
            a_less_b.lemma_value_bound();
            b_less_a.lemma_value_bound();
            if a.value() < b.value() {
                assert(borrow == 1) by (nonlinear_arith)
                    requires
                        borrow <= 1,
                        a_less_b.value() - borrow * whole == a.value() - b.value(),
                        a.value() < b.value(),
                        0 <= a_less_b.value(),
                ;
                assert(b_less_a.value() == b.value() - a.value()) by (nonlinear_arith)
                    requires
                        other_borrow <= 1,
                        b_less_a.value() - other_borrow * whole == b.value() - a.value(),
                        a.value() < b.value(),
                        b.value() < whole,
                        b_less_a.value() < whole,
                ;
            } else {
                assert(borrow == 0) by (nonlinear_arith)
                    requires
                        borrow <= 1,
                        a_less_b.value() - borrow * whole == a.value() - b.value(),
                        a.value() >= b.value(),
                        a_less_b.value() < whole,
                        a.value() < whole,
                ;
                assert(borrow * whole == 0) by (nonlinear_arith)
                    requires
                        borrow == 0,
                ;
            }
            vstd::arithmetic::div_mod::lemma_mod_bound(
                u_first.value() - v_first.value(),
                modulus.value() as int,
            );
            assert(0 * whole == 0) by (nonlinear_arith);
        }
        let a2 = a1.shr1_with_carry(0);
        let u2 = div_by_2(&u1, modulus);
        (a2, b1, u2, v_first)
    }

    /// The inverse of `self` modulo the odd `modulus`, together with whether
    /// there is one. There is one exactly when `self` and `modulus` are
    /// coprime. Where there is none, the number returned is still below the
    /// modulus, and nothing more is said of it.
    pub fn inv_odd_mod(&self, modulus: &Self) -> (r: (Self, CtChoice))
        requires
            modulus.value() % 2 == 1,
        ensures
            r.0.value() < modulus.value(),
            r.1.is_true() == coprime(self.value(), modulus.value()),
            r.1.is_true() ==> (self.value() * r.0.value()) % modulus.value() == 1nat
                % modulus.value(),
    {
        let ghost x = self.value();
        let ghost m = modulus.value();
        proof {
            if LIMBS == 0 {
                assert(modulus.value() == 0);
            }
        }
        let zero = Self::zero();
        let one = Self::one();
        let mut a = *self;
        let mut b = *modulus;
        let mut u = Self::conditional_select(&one, &zero, modulus.ct_eq(&one));
        let mut v = zero;
        let ghost mut scale: nat = 1;
        let mut limb: usize = 0;
        proof {
            assert(radix_pow(0) == 1);
            lemma_mod_self_0(m as int);
            lemma_small_mod(0, m);
            assert(0 * x == 0) by (nonlinear_arith);
            if m == 1 {
                lemma_small_mod(0, m);
            } else {
                assert(1 * x == x) by (nonlinear_arith);
            }
            assert(x * m * 1 == x * m) by (nonlinear_arith);
        }
        while limb < LIMBS
            invariant
                limb <= LIMBS,
                LIMBS > 0,
                x == self.value(),
                m == modulus.value(),
                m % 2 == 1,
                step_invariant(a.value(), b.value(), u.value(), v.value(), x, m),
                scale == radix_pow((2 * limb) as nat),
                a.value() * b.value() * scale <= x * m,
            decreases LIMBS - limb,
        {
            let ghost base = scale;
            let mut bit: usize = 0;
            proof {
                lemma2_to64();
                assert(base * 1 == base) by (nonlinear_arith);
            }
            while bit < 64
                invariant
                    bit <= 64,
                    LIMBS > 0,
                    x == self.value(),
                    m == modulus.value(),
                    m % 2 == 1,
                    step_invariant(a.value(), b.value(), u.value(), v.value(), x, m),
                    scale == base * pow2(bit as nat),
                    a.value() * b.value() * scale <= x * m,
                decreases 64 - bit,
            {
                let ghost a0 = a.value();
                let ghost b0 = b.value();
                let (a2, b2, u2, v2) = Self::inv_step(&a, &b, &u, &v, modulus);
                proof {
                    lemma_step(a0, b0, u.value(), v.value(), x, m);
                    lemma_pow2_unfold((bit + 1) as nat);
                    let less = pow2(bit as nat);
                    assert(a2.value() * b2.value() * (base * (2 * less)) <= x * m)
                        by (nonlinear_arith)
                        requires
                            2 * (a2.value() * b2.value()) <= a0 * b0,
                            a0 * b0 * (base * less) <= x * m,
                    ;
                    scale = base * pow2((bit + 1) as nat);
                }
                a = a2;
                b = b2;
                u = u2;
                v = v2;
                bit += 1;
            }
            proof {
                lemma2_to64_rest();
                let lower = radix_pow((2 * limb) as nat);
                assert(radix_pow((2 * limb + 2) as nat) == 0x1_0000_0000 * radix_pow(
                    (2 * limb + 1) as nat,
                ));
                assert(radix_pow((2 * limb + 1) as nat) == 0x1_0000_0000 * lower);
                assert(lower * 0x1_0000_0000_0000_0000 == 0x1_0000_0000 * (0x1_0000_0000 * lower))
                    by (nonlinear_arith);
            }
            limb += 1;
        }
        proof {
            let whole = radix_pow(LIMBS as nat);
            lemma_radix_pow_add(LIMBS as nat, LIMBS as nat);
            self.lemma_value_bound();
            modulus.lemma_value_bound();
            let product = a.value() * b.value();
            assert(product == 0) by (nonlinear_arith)
                requires
                    product * (whole * whole) <= x * m,
                    x < whole,
                    m < whole,
                    0 <= product,
            ;
            assert(a.value() == 0) by (nonlinear_arith)
                requires
                    a.value() * b.value() == 0,
                    b.value() >= 1,
            ;
            lemma_result(b.value(), u.value(), v.value(), x, m);
        }
        (v, b.ct_eq(&one))
    }
}

} // verus!
