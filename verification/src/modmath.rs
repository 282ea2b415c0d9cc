//! Arithmetic modulo an odd number: the inverse of a power of two, what
//! Montgomery reduction computes, and the Montgomery form of a number.

use crate::arith::radix_pow;
use vstd::arithmetic::div_mod::{
    lemma_add_mod_noop, lemma_mod_add_multiples_vanish,
    lemma_mod_bound, lemma_mod_multiples_vanish, lemma_mod_twice, lemma_mul_mod_noop_left,
    lemma_mul_mod_noop_right, lemma_small_mod, lemma_sub_mod_noop,
};
use vstd::arithmetic::power2::{lemma2_to64, lemma_pow2_adds, lemma_pow2_unfold, pow2};
use vstd::prelude::*;

verus! {

/// The inverse of `2^k` modulo an odd `m`: the `k`-th power of `(m + 1) / 2`,
/// which is the inverse of two.
pub open spec fn pow2_inverse(m: nat, k: nat) -> nat
    decreases k,
{
    if k == 0 {
        1nat % m
    } else {
        (pow2_inverse(m, (k - 1) as nat) * ((m + 1) / 2)) % m
    }
}

/// The inverse of `2^(32 n)` modulo an odd `m`.
pub open spec fn radix_inverse(m: nat, n: nat) -> nat {
    pow2_inverse(m, 32 * n)
}

/// What Montgomery reduction of `t` gives for the modulus `m` and the width of
/// `n` limbs: `t / 2^(32 n)` modulo `m`.
pub open spec fn montgomery_reduce(t: nat, m: nat, n: nat) -> nat {
    (t * radix_inverse(m, n)) % m
}

/// The Montgomery form of `x` for the modulus `m` and the width of `n` limbs:
/// `x * 2^(32 n)` modulo `m`.
pub open spec fn montgomery_form(x: nat, m: nat, n: nat) -> nat {
    (x * radix_pow(n)) % m
}

/// Numbers that are congruent stay so when both are multiplied by `c`.
pub proof fn lemma_congruent_mul(a: int, b: int, c: int, m: int)
    requires
        m > 0,
        a % m == b % m,
    ensures
        (a * c) % m == (b * c) % m,
        (c * a) % m == (c * b) % m,
{
    lemma_mul_mod_noop_left(a, c, m);
    lemma_mul_mod_noop_left(b, c, m);
    lemma_mul_mod_noop_right(c, a, m);
    lemma_mul_mod_noop_right(c, b, m);
}

/// Numbers that are congruent stay so when `c` is added to both.
pub proof fn lemma_congruent_add(a: int, b: int, c: int, m: int)
    requires
        m > 0,
        a % m == b % m,
    ensures
        (a + c) % m == (b + c) % m,
{
    lemma_add_mod_noop(a, c, m);
    lemma_add_mod_noop(b, c, m);
}

/// A number that differs from `a` by a multiple of `m` is congruent to `a`.
pub proof fn lemma_congruent_shift(a: int, k: int, m: int)
    requires
        m > 0,
    ensures
        (a + k * m) % m == a % m,
{
    assert(m * k + a == a + k * m) by (nonlinear_arith);
    lemma_mod_multiples_vanish(k, a, m);
}

pub proof fn lemma_radix_pow_is_pow2(n: nat)
    ensures
        radix_pow(n) == pow2(32 * n),
    decreases n,
{
    lemma2_to64();
    if n > 0 {
        lemma_radix_pow_is_pow2((n - 1) as nat);
        lemma_pow2_adds(32, (32 * (n - 1)) as nat);
    }
}

/// `pow2_inverse(m, k)` is below `m` and is the inverse of `2^k` modulo `m`.
pub proof fn lemma_pow2_inverse(m: nat, k: nat)
    requires
        m % 2 == 1,
    ensures
        pow2_inverse(m, k) < m,
        (pow2(k) * pow2_inverse(m, k)) % m == 1nat % m,
    decreases k,
{
    let mi = m as int;
    if k == 0 {
        lemma2_to64();
        lemma_mod_bound(1, mi);
        lemma_mod_twice(1, mi);
        assert(1 * (1int % mi) == 1int % mi) by (nonlinear_arith);
    } else {
        let prev = pow2_inverse(m, (k - 1) as nat) as int;
        let half = ((m + 1) / 2) as int;
        let below = pow2((k - 1) as nat) as int;
        lemma_pow2_inverse(m, (k - 1) as nat);
        lemma_pow2_unfold(k);
        lemma_mod_bound(prev * half, mi);
        assert(2 * half == mi + 1);
        lemma_mul_mod_noop_right(2 * below, prev * half, mi);
        assert((2 * below) * (prev * half) == (below * prev) * (mi + 1)) by (nonlinear_arith)
            requires
                2 * half == mi + 1,
        ;
        lemma_congruent_mul(below * prev, 1, mi + 1, mi);
        assert(1 * (mi + 1) == mi + 1);
        lemma_mod_add_multiples_vanish(1, mi);
    }
}

/// `radix_inverse(m, n)` is below `m` and is the inverse of `2^(32 n)` modulo
/// `m`.
pub proof fn lemma_radix_inverse(m: nat, n: nat)
    requires
        m % 2 == 1,
    ensures
        radix_inverse(m, n) < m,
        (radix_pow(n) * radix_inverse(m, n)) % m == 1nat % m,
{
    lemma_radix_pow_is_pow2(n);
    lemma_pow2_inverse(m, 32 * n);
}

/// Montgomery reduction is characterised by its result `x`: the one number
/// below `m` with `x * 2^(32 n)` congruent to `t`.
pub proof fn lemma_montgomery_reduce_unique(t: nat, m: nat, n: nat, x: nat)
    requires
        m % 2 == 1,
        x < m,
        (x * radix_pow(n)) % m == t % m,
    ensures
        x == montgomery_reduce(t, m, n),
{
    let mi = m as int;
    let r = radix_pow(n) as int;
    let ri = radix_inverse(m, n) as int;
    let xi = x as int;
    lemma_radix_inverse(m, n);
    lemma_congruent_mul(xi * r, t as int, ri, mi);
    assert((xi * r) * ri == (r * ri) * xi) by (nonlinear_arith);
    lemma_congruent_mul(r * ri, 1, xi, mi);
    assert(1 * xi == xi);
    lemma_small_mod(x, m);
}

/// Montgomery reduction gives a number below `m` whose product with
/// `2^(32 n)` is congruent to what was reduced.
pub proof fn lemma_montgomery_reduce_congruent(t: nat, m: nat, n: nat)
    requires
        m % 2 == 1,
    ensures
        montgomery_reduce(t, m, n) < m,
        (montgomery_reduce(t, m, n) * radix_pow(n)) % m == t % m,
{
    let mi = m as int;
    let r = radix_pow(n) as int;
    let ri = radix_inverse(m, n) as int;
    let ti = t as int;
    lemma_radix_inverse(m, n);
    lemma_mod_bound(ti * ri, mi);
    lemma_mul_mod_noop_left(ti * ri, r, mi);
    assert((ti * ri) * r == (r * ri) * ti) by (nonlinear_arith);
    lemma_congruent_mul(r * ri, 1, ti, mi);
    assert(1 * ti == ti);
}

/// Reducing the Montgomery form of `x` gives `x` modulo `m` back.
pub proof fn lemma_montgomery_round_trip(x: nat, m: nat, n: nat)
    requires
        m % 2 == 1,
    ensures
        montgomery_reduce(montgomery_form(x, m, n), m, n) == x % m,
{
    let mi = m as int;
    let r = radix_pow(n) as int;
    let f = montgomery_form(x, m, n);
    lemma_mod_bound(x as int, mi);
    lemma_mod_bound(x * r, mi);
    lemma_mul_mod_noop_left(x as int, r, mi);
    lemma_mod_twice(x * r, mi);
    lemma_montgomery_reduce_unique(f, m, n, x % m);
}

/// Modulo an odd number, a factor of `2^(32 n)` cancels.
pub proof fn lemma_cancel_radix(p: int, q: int, m: nat, n: nat)
    requires
        m % 2 == 1,
        (p * radix_pow(n)) % (m as int) == (q * radix_pow(n)) % (m as int),
    ensures
        p % (m as int) == q % (m as int),
{
    let mi = m as int;
    let r = radix_pow(n) as int;
    let ri = radix_inverse(m, n) as int;
    lemma_radix_inverse(m, n);
    lemma_congruent_mul(p * r, q * r, ri, mi);
    assert((p * r) * ri == (r * ri) * p) by (nonlinear_arith);
    assert((q * r) * ri == (r * ri) * q) by (nonlinear_arith);
    lemma_congruent_mul(r * ri, 1, p, mi);
    lemma_congruent_mul(r * ri, 1, q, mi);
    assert(1 * p == p);
    assert(1 * q == q);
}

/// A number below `m` with `v * 2^(32 n)` congruent to one is the inverse
/// `radix_inverse(m, n)`.
pub proof fn lemma_radix_inverse_unique(v: nat, m: nat, n: nat)
    requires
        m % 2 == 1,
        v < m,
        (v * radix_pow(n)) % m == 1nat % m,
    ensures
        v == radix_inverse(m, n),
{
    lemma_montgomery_reduce_unique(1, m, n, v);
    lemma_radix_inverse(m, n);
    assert(1 * radix_inverse(m, n) == radix_inverse(m, n)) by (nonlinear_arith);
    lemma_small_mod(radix_inverse(m, n), m);
}

/// Reduction turns the Montgomery product of two numbers into the product of
/// what they reduce to.
pub proof fn lemma_montgomery_reduce_mul(x: nat, y: nat, m: nat, n: nat)
    requires
        m % 2 == 1,
    ensures
        montgomery_reduce(montgomery_reduce(x * y, m, n), m, n) == (montgomery_reduce(x, m, n)
            * montgomery_reduce(y, m, n)) % m,
{
    let mi = m as int;
    let ri = radix_inverse(m, n) as int;
    let a = x as int;
    let b = y as int;
    lemma_mul_mod_noop_left(a * b * ri, ri, mi);
    assert((a * b * ri) * ri == (a * ri) * (b * ri)) by (nonlinear_arith);
    lemma_mul_mod_noop_left(a * ri, b * ri, mi);
    lemma_mul_mod_noop_right((a * ri) % mi, b * ri, mi);
}

/// Reduction turns a sum modulo `m` into the sum of what the terms reduce
/// to.
pub proof fn lemma_montgomery_reduce_add(x: nat, y: nat, m: nat, n: nat)
    requires
        m % 2 == 1,
    ensures
        montgomery_reduce((x + y) % m, m, n) == (montgomery_reduce(x, m, n) + montgomery_reduce(
            y,
            m,
            n,
        )) % m,
{
    let mi = m as int;
    let ri = radix_inverse(m, n) as int;
    let a = x as int;
    let b = y as int;
    lemma_mul_mod_noop_left(a + b, ri, mi);
    assert((a + b) * ri == a * ri + b * ri) by (nonlinear_arith);
    lemma_add_mod_noop(a * ri, b * ri, mi);
}

/// Reduction turns a difference modulo `m` into the difference of what the
/// terms reduce to.
pub proof fn lemma_montgomery_reduce_sub(x: nat, y: nat, m: nat, n: nat)
    requires
        m % 2 == 1,
    ensures
        montgomery_reduce(((x - y) % (m as int)) as nat, m, n) == (montgomery_reduce(x, m, n)
            - montgomery_reduce(y, m, n)) % (m as int),
{
    let mi = m as int;
    let ri = radix_inverse(m, n) as int;
    let a = x as int;
    let b = y as int;
    lemma_mod_bound(a - b, mi);
    lemma_mul_mod_noop_left(a - b, ri, mi);
    assert((a - b) * ri == a * ri - b * ri) by (nonlinear_arith);
    lemma_sub_mod_noop(a * ri, b * ri, mi);
}

/// Where twice `h` is congruent to `x`, twice what `h` reduces to is
/// congruent to what `x` reduces to.
pub proof fn lemma_montgomery_reduce_half(h: nat, x: nat, m: nat, n: nat)
    requires
        m % 2 == 1,
        (2 * h) % m == x % m,
    ensures
        (2 * montgomery_reduce(h, m, n)) % m == montgomery_reduce(x, m, n),
{
    let mi = m as int;
    let ri = radix_inverse(m, n) as int;
    let half = h as int;
    lemma_mul_mod_noop_right(2, half * ri, mi);
    assert(2 * (half * ri) == (2 * half) * ri) by (nonlinear_arith);
    lemma_congruent_mul(2 * half, x as int, ri, mi);
}

} // verus!
