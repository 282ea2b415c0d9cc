//! What holds of arithmetic in Montgomery form, stated over the functions in
//! which the contracts of the operations on residues are written.

use crate::arith::radix_pow;
use crate::encoding::{byte_pow, le_bytes_value};
use crate::inv_mod::{common_divisor, coprime, lemma_coprime_factor};
use crate::modmath::{
    lemma_congruent_mul, lemma_montgomery_reduce_half, lemma_montgomery_reduce_mul,
    lemma_montgomery_round_trip, lemma_radix_inverse, montgomery_form, montgomery_reduce,
    radix_inverse,
};
use crate::modular::div_by_2::{lemma_mod_half, mod_half};
use vstd::arithmetic::div_mod::{
    lemma_add_mod_noop_right, lemma_fundamental_div_mod, lemma_mod_bound,
    lemma_mod_multiples_basic, lemma_mod_self_0, lemma_mul_mod_noop, lemma_mul_mod_noop_left,
    lemma_small_mod,
};
use vstd::prelude::*;

verus! {

/// A number below the modulus that is taken into Montgomery form and back is
/// the number again.
pub proof fn law_round_trip(x: nat, m: nat, n: nat)
    requires
        m % 2 == 1,
        x < m,
    ensures
        montgomery_reduce(montgomery_form(x, m, n), m, n) == x,
{
    lemma_montgomery_round_trip(x, m, n);
    lemma_small_mod(x, m);
}

/// The Montgomery product of the Montgomery forms of `a` and `b` stands for
/// the product of `a` and `b` modulo the modulus: the number that a backend
/// which multiplies in standard form computes.
pub proof fn law_product(a: nat, b: nat, m: nat, n: nat)
    requires
        m % 2 == 1,
    ensures
        montgomery_reduce(
            montgomery_reduce(montgomery_form(a, m, n) * montgomery_form(b, m, n), m, n),
            m,
            n,
        ) == (a * b) % m,
{
    lemma_montgomery_reduce_mul(montgomery_form(a, m, n), montgomery_form(b, m, n), m, n);
    lemma_montgomery_round_trip(a, m, n);
    lemma_montgomery_round_trip(b, m, n);
    lemma_mul_mod_noop(a as int, b as int, m as int);
}

/// The sum of a residue and its negation stands for zero.
pub proof fn law_negation(a: nat, m: nat, n: nat)
    requires
        m % 2 == 1,
    ensures
        ({
            let form = montgomery_form(a, m, n);
            let negated = ((-(form as int)) % (m as int)) as nat;
            montgomery_reduce((form + negated) % m, m, n) == 0
        }),
{
    let form = montgomery_form(a, m, n);
    let negated = ((-(form as int)) % (m as int)) as nat;
    lemma_mod_bound(-(form as int), m as int);
    lemma_add_mod_noop_right(form as int, -(form as int), m as int);
    lemma_small_mod(0, m);
    assert(0 * radix_inverse(m, n) == 0) by (nonlinear_arith);
}

/// Twice the half of a residue stands for the residue.
pub proof fn law_halving(a: nat, m: nat, n: nat)
    requires
        m % 2 == 1,
    ensures
        (2 * montgomery_reduce(mod_half(montgomery_form(a, m, n), m), m, n)) % m == a % m,
{
    let form = montgomery_form(a, m, n);
    lemma_mod_bound((a * radix_pow(n)) as int, m as int);
    lemma_mod_half(form, m);
    lemma_small_mod(form, m);
    lemma_montgomery_reduce_half(mod_half(form, m), form, m, n);
    lemma_montgomery_round_trip(a, m, n);
}

/// A number coprime to the modulus gives a residue that is coprime to it, in
/// what it stands for and in its Montgomery form: the inverse of such a
/// residue is found.
pub proof fn law_inverse_found(a: nat, m: nat, n: nat)
    requires
        m % 2 == 1,
        coprime(a, m),
    ensures
        coprime(a % m, m),
        coprime(montgomery_form(a, m, n), m),
{
    let mi = m as int;
    let form = montgomery_form(a, m, n);
    assert forall|d: nat| #[trigger] common_divisor(d, a % m, m) implies d == 1 by {
        lemma_fundamental_div_mod(a as int, mi);
        lemma_fundamental_div_mod((a % m) as int, d as int);
        lemma_fundamental_div_mod(mi, d as int);
        let k = (m / d) * (a / m) + (a % m) / d;
        assert(a == k * d) by (nonlinear_arith)
            requires
                a == m * (a / m) + a % m,
                a % m == d * ((a % m) / d),
                m == d * (m / d),
                k == (m / d) * (a / m) + (a % m) / d,
        ;
        lemma_mod_multiples_basic(k as int, d as int);
        assert(common_divisor(d, a, m));
    }
    // What the form stands for is a % m, which is the remainder of the form
    // times the inverse of the radix.
    lemma_montgomery_round_trip(a, m, n);
    lemma_coprime_factor(form, radix_inverse(m, n), m);
}

/// The product of a residue and its inverse stands for one: where the
/// Montgomery product of two forms is the Montgomery form of one, which is
/// what inversion gives, the product of what they stand for is one.
pub proof fn law_inverse_product(form: nat, inverse: nat, m: nat, n: nat)
    requires
        m % 2 == 1,
        (inverse * form) % m == (radix_pow(n) * radix_pow(n)) % m,
    ensures
        montgomery_reduce(montgomery_reduce(form * inverse, m, n), m, n) == 1nat % m,
{
    let mi = m as int;
    let whole = radix_pow(n) as int;
    let ri = radix_inverse(m, n) as int;
    let f = form as int;
    let i = inverse as int;
    lemma_radix_inverse(m, n);
    // form * inverse * ri * ri is congruent to (whole * ri) * (whole * ri).
    lemma_mul_mod_noop_left(f * i * ri, ri, mi);
    assert((f * i * ri) * ri == (i * f) * (ri * ri)) by (nonlinear_arith);
    lemma_congruent_mul(i * f, whole * whole, ri * ri, mi);
    assert((whole * whole) * (ri * ri) == (whole * ri) * (whole * ri)) by (nonlinear_arith);
    lemma_mul_mod_noop(whole * ri, whole * ri, mi);
    lemma_mul_mod_noop(1, 1, mi);
    assert(1 * 1 == 1);
}

/// Zero has no inverse modulo a modulus above one.
pub proof fn law_zero_has_no_inverse(m: nat, n: nat)
    requires
        m > 1,
    ensures
        montgomery_form(0, m, n) == 0,
        !coprime(0, m),
{
    assert(0 * radix_pow(n) == 0) by (nonlinear_arith);
    lemma_small_mod(0, m);
    lemma_mod_self_0(m as int);
    assert(common_divisor(m, 0, m));
}

/// What a form stands for is below the modulus, whatever the form.
pub proof fn law_canonical(t: nat, m: nat, n: nat)
    requires
        m > 0,
    ensures
        montgomery_reduce(t, m, n) < m,
{
    lemma_mod_bound((t * radix_inverse(m, n)) as int, m as int);
}

/// Byte sequences of one length that denote the same number are the same, so
/// that a number has one encoding of a given length.
pub proof fn law_encoding_unique(a: Seq<u8>, b: Seq<u8>)
    requires
        a.len() == b.len(),
        le_bytes_value(a, a.len()) == le_bytes_value(b, b.len()),
    ensures
        a == b,
{
    lemma_bytes_agree(a, b, a.len());
    assert(a =~= b);
}

proof fn lemma_bytes_bound(s: Seq<u8>, n: nat)
    ensures
        le_bytes_value(s, n) < byte_pow(n),
    decreases n,
{
    if n > 0 {
        lemma_bytes_bound(s, (n - 1) as nat);
        let p = byte_pow((n - 1) as nat);
        let d = s[n - 1] as nat;
        assert(d * p + p <= 256 * p) by (nonlinear_arith)
            requires
                d <= 255,
        ;
    }
}

proof fn lemma_bytes_agree(s: Seq<u8>, t: Seq<u8>, n: nat)
    requires
        le_bytes_value(s, n) == le_bytes_value(t, n),
    ensures
        forall|i: int| 0 <= i < n ==> s[i] == t[i],
    decreases n,
{
    if n > 0 {
        let k = (n - 1) as nat;
        let p = byte_pow(k);
        lemma_bytes_bound(s, k);
        lemma_bytes_bound(t, k);
        let a = s[n - 1] as nat;
        let b = t[n - 1] as nat;
        let x = le_bytes_value(s, k);
        let y = le_bytes_value(t, k);
        assert(a == b) by (nonlinear_arith)
            requires
                x + a * p == y + b * p,
                x < p,
                y < p,
        ;
        lemma_bytes_agree(s, t, k);
    }
}

} // verus!
