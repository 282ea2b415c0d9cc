//! The multiplication accelerator of the RISC Zero zkVM, as far as this
//! library decides: which operands one call of it gets, and what is made of
//! the eight words it writes. The call itself is made by the caller, who hands
//! the words written back.
//!
//! The accelerator works on numbers of 256 bits, eight limbs. A backend that
//! uses it keeps residues of that width in standard form (the number itself,
//! below the modulus) in place of Montgomery form, since a reduced product is
//! then one call.

use crate::arith::{
    lemma_limbs_value_agree, lemma_limbs_value_zero, lemma_radix_pow_add, limbs_value, radix_pow,
};
use crate::ct_choice::CtChoice;
use crate::inv_mod::coprime;
use crate::modmath::{montgomery_form, montgomery_reduce};
use crate::modular::constant_mod::{r_inv, DecodeError, ResidueParams};
use crate::uint::WideInt;
use vstd::arithmetic::div_mod::lemma_mul_mod_noop_right;
use vstd::prelude::*;

verus! {

/// The width of the accelerator, in limbs.
pub const BIGINT_WIDTH_WORDS: usize = 8;

/// Reads `syscall::bigint::WIDTH_WORDS` of `risc0_zkvm_platform`: the width of
/// the accelerator in words of 32 bits, which is 8.
#[verifier::external_body]
fn platform_width_words() -> (r: usize)
    ensures
        r == 8,
{
    risc0_zkvm_platform::syscall::bigint::WIDTH_WORDS
}

/// Reads `syscall::bigint::OP_MULTIPLY` of `risc0_zkvm_platform`: the number
/// that selects multiplication, which is 0.
#[verifier::external_body]
fn platform_op_multiply() -> (r: u32)
    ensures
        r == 0,
{
    risc0_zkvm_platform::syscall::bigint::OP_MULTIPLY
}

/// Whether the accelerator serves integers of `LIMBS` limbs.
pub fn is_accelerated_width<const LIMBS: usize>() -> (r: bool)
    ensures
        r == (LIMBS == BIGINT_WIDTH_WORDS),
{
    LIMBS == platform_width_words()
}

/// The operands of one call of the accelerator.
#[derive(Clone, Copy, Debug, PartialEq, Eq)]
pub struct BigintCall {
    /// The operation.
    pub op: u32,
    /// The first factor.
    pub x: [u32; 8],
    /// The second factor.
    pub y: [u32; 8],
    /// The modulus, or zero for a product that is not reduced.
    pub modulus: [u32; 8],
}

impl BigintCall {
    /// The number that the accelerator is to write: the product of the
    /// factors, reduced by the modulus where that is not zero.
    pub open spec fn answer(self) -> nat {
        let product = limbs_value(self.x@, 8) * limbs_value(self.y@, 8);
        let modulus = limbs_value(self.modulus@, 8);
        if modulus == 0 {
            product
        } else {
            product % modulus
        }
    }
}

/// The call that multiplies `a` by `b` modulo `modulus`.
pub fn modmul_u256_call(a: &WideInt<8>, b: &WideInt<8>, modulus: &WideInt<8>) -> (call: BigintCall)
    ensures
        call.op == 0,
        call.x == a.limbs,
        call.y == b.limbs,
        call.modulus == modulus.limbs,
        modulus.value() > 0 ==> call.answer() == (a.value() * b.value()) % modulus.value(),
{
    BigintCall { op: platform_op_multiply(), x: a.limbs, y: b.limbs, modulus: modulus.limbs }
}

/// What is made of the words that the accelerator wrote for a product modulo
/// `modulus`: the number written where it is below the modulus, else nothing.
/// An answer that is not below the modulus shows that the accelerator cannot
/// be relied on, and the caller is to stop there.
pub fn modmul_u256_result(out: &[u32; 8], modulus: &WideInt<8>) -> (r: Option<WideInt<8>>)
    ensures
        r.is_some() == (limbs_value(out@, 8) < modulus.value()),
        r matches Some(w) ==> w.limbs == *out,
{
    let result = WideInt::<8>::from_words(*out);
    if result.ct_lt(modulus).to_bool_vartime() {
        Some(result)
    } else {
        None
    }
}

/// The call that multiplies `a` by `b` in full: both are extended by zeros to
/// the width of the accelerator, and the modulus is zero.
pub fn mul_wide_u128_call(a: &WideInt<4>, b: &WideInt<4>) -> (call: BigintCall)
    ensures
        call.op == 0,
        forall|i: int| 0 <= i < 4 ==> call.x@[i] == a.limbs@[i] && call.y@[i] == b.limbs@[i],
        forall|i: int| 4 <= i < 8 ==> call.x@[i] == 0 && call.y@[i] == 0,
        forall|i: int| 0 <= i < 8 ==> call.modulus@[i] == 0,
        call.answer() == a.value() * b.value(),
{
    let mut x = [0u32; 8];
    let mut y = [0u32; 8];
    let mut i: usize = 0;
    while i < 4
        invariant
            i <= 4,
            forall|k: int| 0 <= k < i ==> x@[k] == a.limbs@[k] && y@[k] == b.limbs@[k],
            forall|k: int| i <= k < 8 ==> x@[k] == 0 && y@[k] == 0,
        decreases 4 - i,
    {
        x[i] = a.limbs[i];
        y[i] = b.limbs[i];
        i += 1;
    }
    let call = BigintCall { op: platform_op_multiply(), x, y, modulus: [0u32; 8] };
    proof {
        lemma_zero_extended(a.limbs@, x@);
        lemma_zero_extended(b.limbs@, y@);
        lemma_limbs_value_zero(call.modulus@, 8);
    }
    call
}

/// The low and the high half of the full product that the accelerator wrote.
pub fn mul_wide_u128_result(out: &[u32; 8]) -> (r: (WideInt<4>, WideInt<4>))
    ensures
        forall|i: int| 0 <= i < 4 ==> r.0.limbs@[i] == out@[i] && r.1.limbs@[i] == out@[i + 4],
        r.0.value() + r.1.value() * WideInt::<4>::radix() == limbs_value(out@, 8),
{
    let mut lo = [0u32; 4];
    let mut hi = [0u32; 4];
    let mut i: usize = 0;
    while i < 4
        invariant
            i <= 4,
            forall|k: int| 0 <= k < i ==> lo@[k] == out@[k] && hi@[k] == out@[k + 4],
        decreases 4 - i,
    {
        lo[i] = out[i];
        hi[i] = out[i + 4];
        i += 1;
    }
    proof {
        lemma_split_value(out@, lo@, hi@);
    }
    (WideInt { limbs: lo }, WideInt { limbs: hi })
}

/// The call by which a number enters standard form: a multiplication by one,
/// which takes it below the modulus of `MOD`. The answer is the number that
/// the residue made of `integer` stands for.
pub fn into_standard_form_call<MOD: ResidueParams<8>>(integer: &WideInt<8>) -> (call: BigintCall)
    ensures
        call.op == 0,
        call.x == integer.limbs,
        limbs_value(call.y@, 8) == 1,
        limbs_value(call.modulus@, 8) == MOD::modulus_value(),
        call.answer() == integer.value() % MOD::modulus_value(),
{
    proof {
        MOD::lemma_modulus_odd();
        assert(integer.value() * 1 == integer.value()) by (nonlinear_arith);
    }
    modmul_u256_call(integer, &WideInt::<8>::one(), &MOD::modulus())
}

/// The call that multiplies two residues in standard form. The answer is the
/// number that the product of the residues stands for.
pub fn standard_form_product_call<MOD: ResidueParams<8>>(a: &WideInt<8>, b: &WideInt<8>) -> (call:
    BigintCall)
    ensures
        call.op == 0,
        call.x == a.limbs,
        call.y == b.limbs,
        limbs_value(call.modulus@, 8) == MOD::modulus_value(),
        call.answer() == (a.value() * b.value()) % MOD::modulus_value(),
{
    proof {
        MOD::lemma_modulus_odd();
    }
    modmul_u256_call(a, b, &MOD::modulus())
}

/// The call that takes a residue from standard form to what is encoded: a
/// multiplication by `R`. The answer is the Montgomery form of the residue, so
/// that the bytes are those of a backend that keeps Montgomery form.
pub fn wire_form_call<MOD: ResidueParams<8>>(stored: &WideInt<8>) -> (call: BigintCall)
    ensures
        call.op == 0,
        call.x == stored.limbs,
        limbs_value(call.modulus@, 8) == MOD::modulus_value(),
        call.answer() == montgomery_form(stored.value(), MOD::modulus_value(), 8),
{
    proof {
        MOD::lemma_modulus_odd();
        lemma_mul_mod_noop_right(
            stored.value() as int,
            radix_pow(8) as int,
            MOD::modulus_value() as int,
        );
    }
    modmul_u256_call(stored, &MOD::r(), &MOD::modulus())
}

/// The call that takes what was decoded, a Montgomery form, to standard form:
/// a multiplication by the inverse of `R`. A number that is not below the
/// modulus is refused. The answer is the number that the residue decoded
/// stands for.
pub fn from_wire_form_call<MOD: ResidueParams<8>>(wire: &WideInt<8>) -> (r: Result<
    BigintCall,
    DecodeError,
>)
    ensures
        wire.value() >= MOD::modulus_value() ==> r == Err::<BigintCall, DecodeError>(
            DecodeError::NotReduced,
        ),
        wire.value() < MOD::modulus_value() ==> (r matches Ok(call) && call.op == 0 && call.x
            == wire.limbs && limbs_value(call.modulus@, 8) == MOD::modulus_value() && call.answer()
            == montgomery_reduce(wire.value(), MOD::modulus_value(), 8)),
{
    let modulus = MOD::modulus();
    if wire.ct_lt(&modulus).to_bool_vartime() {
        Ok(modmul_u256_call(wire, &r_inv::<MOD, 8>(), &modulus))
    } else {
        Err(DecodeError::NotReduced)
    }
}

/// The inverse of a residue in standard form, with whether there is one:
/// the inverse modulo the modulus of `MOD` as it is, since nothing is kept in
/// Montgomery form.
pub fn inv_standard_form<MOD: ResidueParams<8>>(x: &WideInt<8>) -> (r: (WideInt<8>, CtChoice))
    ensures
        r.0.value() < MOD::modulus_value(),
        r.1.is_true() == coprime(x.value(), MOD::modulus_value()),
        r.1.is_true() ==> (x.value() * r.0.value()) % MOD::modulus_value() == 1nat
            % MOD::modulus_value(),
{
    proof {
        MOD::lemma_modulus_odd();
    }
    x.inv_odd_mod(&MOD::modulus())
}

/// Four limbs extended by four zeros denote the same number.
proof fn lemma_zero_extended(short: Seq<u32>, long: Seq<u32>)
    requires
        forall|i: int| 0 <= i < 4 ==> long[i] == short[i],
        forall|i: int| 4 <= i < 8 ==> long[i] == 0,
    ensures
        limbs_value(long, 8) == limbs_value(short, 4),
{
    lemma_limbs_value_agree(long, short, 4);
    reveal_with_fuel(limbs_value, 5);
    assert(limbs_value(long, 8) == limbs_value(long, 4) + 0 * radix_pow(4) + 0 * radix_pow(5) + 0
        * radix_pow(6) + 0 * radix_pow(7));
    assert(0 * radix_pow(4) == 0 && 0 * radix_pow(5) == 0 && 0 * radix_pow(6) == 0 && 0
        * radix_pow(7) == 0) by (nonlinear_arith);
}

/// Eight limbs denote their low four limbs plus `2^128` times their high four.
proof fn lemma_split_value(whole: Seq<u32>, lo: Seq<u32>, hi: Seq<u32>)
    requires
        forall|i: int| 0 <= i < 4 ==> lo[i] == whole[i] && hi[i] == whole[i + 4],
    ensures
        limbs_value(lo, 4) + limbs_value(hi, 4) * radix_pow(4) == limbs_value(whole, 8),
{
    lemma_limbs_value_agree(whole, lo, 4);
    reveal_with_fuel(limbs_value, 5);
    let p = radix_pow(4);
    lemma_radix_pow_add(0, 4);
    lemma_radix_pow_add(1, 4);
    lemma_radix_pow_add(2, 4);
    lemma_radix_pow_add(3, 4);
    let h0 = hi[0] as nat;
    let h1 = hi[1] as nat;
    let h2 = hi[2] as nat;
    let h3 = hi[3] as nat;
    assert(limbs_value(whole, 8) == limbs_value(whole, 4) + h0 * radix_pow(4) + h1 * radix_pow(5)
        + h2 * radix_pow(6) + h3 * radix_pow(7));
    assert(limbs_value(hi, 4) == h0 * radix_pow(0) + h1 * radix_pow(1) + h2 * radix_pow(2) + h3
        * radix_pow(3));
    assert((h0 * radix_pow(0) + h1 * radix_pow(1) + h2 * radix_pow(2) + h3 * radix_pow(3)) * p
        == h0 * (radix_pow(0) * p) + h1 * (radix_pow(1) * p) + h2 * (radix_pow(2) * p) + h3 * (
    radix_pow(3) * p)) by (nonlinear_arith);
}

} // verus!
