//! Positional arithmetic on sequences of limbs: the radix, the value that a
//! sequence of limbs denotes, and the facts about both that the proofs of the
//! executable arithmetic use.

use vstd::prelude::*;

verus! {

/// The radix of the positional representation: one more than the largest limb.
pub open spec fn limb_radix() -> nat {
    0x1_0000_0000
}

/// `limb_radix()` raised to the power `k`, that is `2^(32 k)`.
pub open spec fn radix_pow(k: nat) -> nat
    decreases k,
{
    if k == 0 {
        1
    } else {
        limb_radix() * radix_pow((k - 1) as nat)
    }
}

/// The number that the first `n` limbs of `s` denote, least significant limb
/// first: the sum of `s[i] * 2^(32 i)` over `i < n`.
pub open spec fn limbs_value(s: Seq<u32>, n: nat) -> nat
    decreases n,
{
    if n == 0 {
        0
    } else {
        limbs_value(s, (n - 1) as nat) + (s[n - 1] as nat) * radix_pow((n - 1) as nat)
    }
}

pub proof fn lemma_radix_pow_positive(k: nat)
    ensures
        radix_pow(k) > 0,
    decreases k,
{
    if k > 0 {
        lemma_radix_pow_positive((k - 1) as nat);
        let p = radix_pow((k - 1) as nat);
        assert(0x1_0000_0000 * p > 0) by (nonlinear_arith)
            requires
                p > 0,
        ;
    }
}

pub proof fn lemma_radix_pow_add(a: nat, b: nat)
    ensures
        radix_pow(a + b) == radix_pow(a) * radix_pow(b),
    decreases b,
{
    if b == 0 {
        assert(radix_pow(a) * 1 == radix_pow(a)) by (nonlinear_arith);
    } else {
        lemma_radix_pow_add(a, (b - 1) as nat);
        let pa = radix_pow(a);
        let pb = radix_pow((b - 1) as nat);
        assert(radix_pow(a + b) == limb_radix() * radix_pow((a + b - 1) as nat));
        assert(0x1_0000_0000 * (pa * pb) == pa * (0x1_0000_0000 * pb)) by (nonlinear_arith);
    }
}

/// The first `n` limbs denote a number below `2^(32 n)`.
pub proof fn lemma_limbs_value_bound(s: Seq<u32>, n: nat)
    ensures
        limbs_value(s, n) < radix_pow(n),
    decreases n,
{
    if n > 0 {
        lemma_limbs_value_bound(s, (n - 1) as nat);
        let p = radix_pow((n - 1) as nat);
        let d = s[n - 1] as nat;
        assert(d * p + p <= 0x1_0000_0000 * p) by (nonlinear_arith)
            requires
                d <= 0xffff_ffff,
        ;
    }
}

/// Sequences that agree on their first `n` limbs denote the same number there.
pub proof fn lemma_limbs_value_agree(s: Seq<u32>, t: Seq<u32>, n: nat)
    requires
        forall|i: int| 0 <= i < n ==> s[i] == t[i],
    ensures
        limbs_value(s, n) == limbs_value(t, n),
    decreases n,
{
    if n > 0 {
        lemma_limbs_value_agree(s, t, (n - 1) as nat);
    }
}

/// Limbs that are all zero denote zero.
pub proof fn lemma_limbs_value_zero(s: Seq<u32>, n: nat)
    requires
        forall|i: int| 0 <= i < n ==> s[i] == 0,
    ensures
        limbs_value(s, n) == 0,
    decreases n,
{
    if n > 0 {
        lemma_limbs_value_zero(s, (n - 1) as nat);
        assert(0 * radix_pow((n - 1) as nat) == 0) by (nonlinear_arith);
    }
}

/// Replacing limb `k` by `v` moves the value by `(v - s[k]) * 2^(32 k)`.
pub proof fn lemma_limbs_value_update(s: Seq<u32>, k: nat, v: u32, n: nat)
    requires
        k < n <= s.len(),
    ensures
        limbs_value(s.update(k as int, v), n) + (s[k as int] as nat) * radix_pow(k)
            == limbs_value(s, n) + (v as nat) * radix_pow(k),
    decreases n,
{
    let t = s.update(k as int, v);
    if k == n - 1 {
        lemma_limbs_value_agree(s, t, (n - 1) as nat);
    } else {
        lemma_limbs_value_update(s, k, v, (n - 1) as nat);
    }
}

/// Two sequences of limbs that denote the same number hold the same limbs.
pub proof fn lemma_limbs_value_injective(s: Seq<u32>, t: Seq<u32>, n: nat)
    requires
        limbs_value(s, n) == limbs_value(t, n),
    ensures
        forall|i: int| 0 <= i < n ==> s[i] == t[i],
    decreases n,
{
    if n > 0 {
        let m = (n - 1) as nat;
        let p = radix_pow(m);
        lemma_limbs_value_bound(s, m);
        lemma_limbs_value_bound(t, m);
        let a = s[n - 1] as nat;
        let b = t[n - 1] as nat;
        let x = limbs_value(s, m);
        let y = limbs_value(t, m);
        assert(a == b) by (nonlinear_arith)
            requires
                x + a * p == y + b * p,
                x < p,
                y < p,
        ;
        lemma_limbs_value_injective(s, t, m);
    }
}

/// A number of at least one limb is odd exactly when its lowest limb is.
pub proof fn lemma_limbs_value_parity(s: Seq<u32>, n: nat)
    requires
        n > 0,
    ensures
        limbs_value(s, n) % 2 == (s[0] as nat) % 2,
    decreases n,
{
    if n == 1 {
        assert(limbs_value(s, 0) == 0);
        assert(radix_pow(0) == 1);
        assert((s[0] as nat) * 1 == s[0] as nat) by (nonlinear_arith);
    } else {
        lemma_limbs_value_parity(s, (n - 1) as nat);
        let p = radix_pow((n - 2) as nat);
        let d = s[n - 1] as nat;
        let low = limbs_value(s, (n - 1) as nat);
        assert(radix_pow((n - 1) as nat) == 0x1_0000_0000 * p);
        assert(d * (0x1_0000_0000 * p) == 2 * (0x8000_0000 * d * p)) by (nonlinear_arith);
        assert((low + 2 * (0x8000_0000 * d * p)) % 2 == low % 2) by (nonlinear_arith);
    }
}

/// The lowest limb of a number of at least one limb is its remainder modulo
/// the radix.
pub proof fn lemma_limbs_value_low(s: Seq<u32>, n: nat)
    requires
        n > 0,
    ensures
        limbs_value(s, n) % 0x1_0000_0000 == s[0] as nat,
    decreases n,
{
    if n == 1 {
        assert(limbs_value(s, 0) == 0);
        assert(radix_pow(0) == 1);
        assert((s[0] as nat) * 1 == s[0] as nat) by (nonlinear_arith);
    } else {
        lemma_limbs_value_low(s, (n - 1) as nat);
        let p = radix_pow((n - 2) as nat);
        let d = s[n - 1] as nat;
        let low = limbs_value(s, (n - 1) as nat);
        assert(radix_pow((n - 1) as nat) == 0x1_0000_0000 * p);
        assert(d * (0x1_0000_0000 * p) == 0x1_0000_0000 * (d * p)) by (nonlinear_arith);
        vstd::arithmetic::div_mod::lemma_mod_multiples_vanish(
            (d * p) as int,
            low as int,
            0x1_0000_0000,
        );
    }
}

} // verus!
