//! Residues modulo a modulus that is fixed by a type.

use crate::arith::radix_pow;
use crate::ct_choice::CtChoice;
use crate::encoding::{le_bytes_value, limbs_le_bytes};
use crate::inv_mod::{coprime, lemma_coprime_factor, lemma_inverse_gives_coprime};
use crate::modmath::{
    lemma_cancel_radix, lemma_congruent_mul, lemma_montgomery_reduce_add,
    lemma_montgomery_reduce_congruent, lemma_montgomery_reduce_half,
    lemma_montgomery_reduce_mul, lemma_montgomery_reduce_sub, lemma_montgomery_round_trip,
    lemma_radix_inverse, lemma_radix_inverse_unique, montgomery_form, montgomery_reduce,
    radix_inverse,
};
use crate::modular::div_by_2::{div_by_2, mod_half};
use crate::modular::inv::inv_montgomery_form;
use crate::modular::mul::mul_montgomery_form;
use crate::modular::repr::{from_montgomery_form, into_montgomery_form};
use crate::uint::WideInt;
use core::fmt::Debug;
use core::marker::PhantomData;
use vstd::arithmetic::div_mod::{
    lemma_mod_bound, lemma_mul_mod_noop, lemma_mul_mod_noop_left, lemma_small_mod,
};
use vstd::prelude::*;

verus! {

/// The constants that go with one odd modulus of `LIMBS` limbs: the modulus
/// and what Montgomery arithmetic modulo it needs. A type that implements the
/// trait stands for the modulus; the constants are computed once, elsewhere,
/// and the arithmetic relies on them as they are stated here.
pub trait ResidueParams<const LIMBS: usize>:
    Copy + Debug + Default + Eq + Send + Sync + 'static {
    /// The modulus, as a number.
    spec fn modulus_value() -> nat;

    /// The modulus is odd.
    proof fn lemma_modulus_odd()
        ensures
            Self::modulus_value() % 2 == 1,
    ;

    /// The modulus.
    fn modulus() -> (r: WideInt<LIMBS>)
        ensures
            r.value() == Self::modulus_value(),
    ;

    /// `R`, that is `2^(32 LIMBS)`, modulo the modulus: the Montgomery form of
    /// one.
    fn r() -> (r: WideInt<LIMBS>)
        ensures
            r.value() == radix_pow(LIMBS as nat) % Self::modulus_value(),
    ;

    /// The square of `R` modulo the modulus, which takes a number into
    /// Montgomery form.
    fn r2() -> (r: WideInt<LIMBS>)
        ensures
            r.value() == (radix_pow(LIMBS as nat) * radix_pow(LIMBS as nat))
                % Self::modulus_value(),
    ;

    /// The cube of `R` modulo the modulus, which inversion uses.
    fn r3() -> (r: WideInt<LIMBS>)
        ensures
            r.value() == (radix_pow(LIMBS as nat) * radix_pow(LIMBS as nat) * radix_pow(
                LIMBS as nat,
            )) % Self::modulus_value(),
    ;

    /// The negated inverse of the modulus modulo `2^32`.
    fn mod_neg_inv() -> (r: u32)
        ensures
            (Self::modulus_value() * r + 1) % 0x1_0000_0000 == 0,
    ;
}

/// The inverse of `R`, that is of `2^(32 LIMBS)`, modulo the modulus of
/// `MOD`.
pub fn r_inv<MOD: ResidueParams<LIMBS>, const LIMBS: usize>() -> (r: WideInt<LIMBS>)
    ensures
        r.value() == radix_inverse(MOD::modulus_value(), LIMBS as nat),
{
    proof {
        MOD::lemma_modulus_odd();
    }
    let radix = MOD::r();
    let (inverse, found) = radix.inv_odd_mod(&MOD::modulus());
    proof {
        let m = MOD::modulus_value();
        let n = LIMBS as nat;
        let whole = radix_pow(n);
        let ri = radix_inverse(m, n);
        lemma_radix_inverse(m, n);
        lemma_mul_mod_noop_left(whole as int, ri as int, m as int);
        lemma_inverse_gives_coprime(radix.value(), ri, m);
        assert(found.is_true());
        lemma_mul_mod_noop_left(whole as int, inverse.value() as int, m as int);
        assert(whole * inverse.value() == inverse.value() * whole) by (nonlinear_arith);
        lemma_radix_inverse_unique(inverse.value(), m, n);
    }
    inverse
}

/// Why bytes were not accepted as the encoding of a residue.
#[derive(Clone, Copy, Debug, PartialEq, Eq)]
pub enum DecodeError {
    /// There are not as many bytes as the encoding of a residue has.
    InvalidLength,
    /// The number encoded is not below the modulus.
    NotReduced,
}

impl DecodeError {
    /// What went wrong, in words.
    pub fn message(&self) -> (r: &'static str)
        ensures
            r@ == (match *self {
                DecodeError::InvalidLength => "encoding has the wrong length"@,
                DecodeError::NotReduced => "montgomery form must be reduced"@,
            }),
    {
        match self {
            DecodeError::InvalidLength => "encoding has the wrong length",
            DecodeError::NotReduced => "montgomery form must be reduced",
        }
    }
}

/// A residue modulo the modulus of `MOD`, kept in Montgomery form. The number
/// kept is always below the modulus.
#[derive(Copy, Debug, PartialEq, Eq)]
pub struct Residue<MOD: ResidueParams<LIMBS>, const LIMBS: usize> {
    montgomery_form: WideInt<LIMBS>,
    phantom: PhantomData<MOD>,
}

impl<MOD: ResidueParams<LIMBS>, const LIMBS: usize> Clone for Residue<MOD, LIMBS> {
    fn clone(&self) -> (r: Self)
        ensures
            r == *self,
    {
        *self
    }
}

impl<MOD: ResidueParams<LIMBS>, const LIMBS: usize> Default for Residue<MOD, LIMBS> {
    fn default() -> (r: Self)
        ensures
            r.repr() == 0,
            r.value() == 0,
    {
        Self::zero()
    }
}

impl<MOD: ResidueParams<LIMBS>, const LIMBS: usize> Residue<MOD, LIMBS> {
    #[verifier::type_invariant]
    spec fn canonical(self) -> bool {
        self.montgomery_form.value() < MOD::modulus_value()
    }

    /// The Montgomery form that is kept, as an integer of the width.
    pub closed spec fn form(self) -> WideInt<LIMBS> {
        self.montgomery_form
    }

    /// The Montgomery form that is kept, as a number.
    pub open spec fn repr(self) -> nat {
        self.form().value()
    }

    /// The residue that `self` stands for, as the number below the modulus.
    pub open spec fn value(self) -> nat {
        montgomery_reduce(self.repr(), MOD::modulus_value(), LIMBS as nat)
    }

    /// Where what is kept is below the modulus, as it is in every residue,
    /// the residue it stands for is below the modulus too, and what is kept
    /// is the Montgomery form of that residue.
    pub proof fn lemma_canonical(self)
        requires
            self.repr() < MOD::modulus_value(),
        ensures
            self.value() < MOD::modulus_value(),
            self.repr() == montgomery_form(self.value(), MOD::modulus_value(), LIMBS as nat),
    {
        MOD::lemma_modulus_odd();
        let m = MOD::modulus_value();
        lemma_montgomery_reduce_congruent(self.repr(), m, LIMBS as nat);
        lemma_small_mod(self.repr(), m);
    }

    /// The residue that is kept as `form`, which is below the modulus.
    fn from_form(form: WideInt<LIMBS>) -> (r: Self)
        requires
            form.value() < MOD::modulus_value(),
        ensures
            r.form() == form,
    {
        Residue { montgomery_form: form, phantom: PhantomData }
    }

    /// The residue zero.
    pub fn zero() -> (r: Self)
        ensures
            r.repr() == 0,
            r.value() == 0,
    {
        proof {
            MOD::lemma_modulus_odd();
            let m = MOD::modulus_value();
            assert(0 * radix_inverse(m, LIMBS as nat) == 0) by (nonlinear_arith);
            lemma_small_mod(0, m);
        }
        Self::from_form(WideInt::zero())
    }

    /// The residue one.
    pub fn one() -> (r: Self)
        ensures
            r.repr() == radix_pow(LIMBS as nat) % MOD::modulus_value(),
            r.value() == 1nat % MOD::modulus_value(),
    {
        proof {
            MOD::lemma_modulus_odd();
            let m = MOD::modulus_value();
            let whole = radix_pow(LIMBS as nat);
            lemma_mod_bound(whole as int, m as int);
            assert(1 * whole == whole) by (nonlinear_arith);
            lemma_montgomery_round_trip(1, m, LIMBS as nat);
        }
        Self::from_form(MOD::r())
    }

    /// The residue of `integer` modulo the modulus.
    pub fn new(integer: &WideInt<LIMBS>) -> (r: Self)
        ensures
            r.repr() == montgomery_form(integer.value(), MOD::modulus_value(), LIMBS as nat),
            r.value() == integer.value() % MOD::modulus_value(),
    {
        proof {
            MOD::lemma_modulus_odd();
            lemma_montgomery_round_trip(integer.value(), MOD::modulus_value(), LIMBS as nat);
        }
        let form = into_montgomery_form(
            integer,
            &MOD::r2(),
            &MOD::modulus(),
            MOD::mod_neg_inv(),
        );
        Self::from_form(form)
    }

    /// The residue of a number that is to be below the modulus already, such
    /// as a candidate drawn at random: the residue of `candidate` where it is
    /// below the modulus, else nothing.
    pub fn from_reduced(candidate: &WideInt<LIMBS>) -> (r: Option<Self>)
        ensures
            r.is_some() == (candidate.value() < MOD::modulus_value()),
            r matches Some(residue) ==> residue.value() == candidate.value() && residue.repr()
                == montgomery_form(candidate.value(), MOD::modulus_value(), LIMBS as nat),
    {
        if candidate.ct_lt(&MOD::modulus()).to_bool_vartime() {
            proof {
                lemma_small_mod(candidate.value(), MOD::modulus_value());
            }
            Some(Self::new(candidate))
        } else {
            None
        }
    }

    /// The number below the modulus that the residue stands for.
    pub fn retrieve(&self) -> (r: WideInt<LIMBS>)
        ensures
            r.value() == self.value(),
            r.value() < MOD::modulus_value(),
    {
        proof {
            MOD::lemma_modulus_odd();
        }
        from_montgomery_form(&self.montgomery_form, &MOD::modulus(), MOD::mod_neg_inv())
    }

    /// The Montgomery form that is kept.
    pub fn as_montgomery(&self) -> (r: WideInt<LIMBS>)
        ensures
            r == self.form(),
            r.value() < MOD::modulus_value(),
    {
        proof {
            use_type_invariant(self);
        }
        self.montgomery_form
    }

    /// Half of the residue: the residue `y` with `2 y` congruent to `self`.
    pub fn div_by_2(&self) -> (r: Self)
        ensures
            r.repr() == mod_half(self.repr(), MOD::modulus_value()),
            (2 * r.value()) % MOD::modulus_value() == self.value(),
    {
        proof {
            use_type_invariant(self);
            MOD::lemma_modulus_odd();
        }
        let form = div_by_2(&self.montgomery_form, &MOD::modulus());
        let r = Self::from_form(form);
        proof {
            let m = MOD::modulus_value();
            lemma_small_mod(self.repr(), m);
            lemma_montgomery_reduce_half(r.repr(), self.repr(), m, LIMBS as nat);
        }
        r
    }

    /// The sum of two residues.
    pub fn add(&self, rhs: &Self) -> (r: Self)
        ensures
            r.repr() == (self.repr() + rhs.repr()) % MOD::modulus_value(),
            r.value() == (self.value() + rhs.value()) % MOD::modulus_value(),
    {
        proof {
            use_type_invariant(self);
            use_type_invariant(rhs);
            MOD::lemma_modulus_odd();
        }
        let form = self.montgomery_form.add_mod(&rhs.montgomery_form, &MOD::modulus());
        let r = Self::from_form(form);
        proof {
            lemma_montgomery_reduce_add(
                self.repr(),
                rhs.repr(),
                MOD::modulus_value(),
                LIMBS as nat,
            );
        }
        r
    }

    /// The difference of two residues.
    pub fn sub(&self, rhs: &Self) -> (r: Self)
        ensures
            r.repr() == (self.repr() - rhs.repr()) % (MOD::modulus_value() as int),
            r.value() == (self.value() - rhs.value()) % (MOD::modulus_value() as int),
    {
        proof {
            use_type_invariant(self);
            use_type_invariant(rhs);
            MOD::lemma_modulus_odd();
        }
        let form = self.montgomery_form.sub_mod(&rhs.montgomery_form, &MOD::modulus());
        let r = Self::from_form(form);
        proof {
            lemma_montgomery_reduce_sub(
                self.repr(),
                rhs.repr(),
                MOD::modulus_value(),
                LIMBS as nat,
            );
        }
        r
    }

    /// The residue that added to `self` gives zero.
    pub fn neg(&self) -> (r: Self)
        ensures
            r.repr() == (-(self.repr() as int)) % (MOD::modulus_value() as int),
            r.value() == (-(self.value() as int)) % (MOD::modulus_value() as int),
    {
        Self::zero().sub(self)
    }

    /// The product of two residues.
    pub fn mul(&self, rhs: &Self) -> (r: Self)
        ensures
            r.repr() == montgomery_reduce(
                self.repr() * rhs.repr(),
                MOD::modulus_value(),
                LIMBS as nat,
            ),
            r.value() == (self.value() * rhs.value()) % MOD::modulus_value(),
    {
        proof {
            use_type_invariant(self);
            use_type_invariant(rhs);
            MOD::lemma_modulus_odd();
        }
        let modulus = MOD::modulus();
        proof {
            let m = MOD::modulus_value();
            let whole = radix_pow(LIMBS as nat);
            modulus.lemma_value_bound();
            assert(self.repr() * rhs.repr() < m * whole) by (nonlinear_arith)
                requires
                    self.repr() < m,
                    rhs.repr() < m,
                    m < whole,
            ;
        }
        let form = mul_montgomery_form(
            &self.montgomery_form,
            &rhs.montgomery_form,
            &modulus,
            MOD::mod_neg_inv(),
        );
        let r = Self::from_form(form);
        proof {
            lemma_montgomery_reduce_mul(
                self.repr(),
                rhs.repr(),
                MOD::modulus_value(),
                LIMBS as nat,
            );
        }
        r
    }

    /// The inverse of the residue, with whether there is one. There is one
    /// exactly when the residue is coprime to the modulus. Where there is
    /// none, a residue is returned still, and nothing is said of it.
    pub fn invert(&self) -> (r: (Self, CtChoice))
        ensures
            r.1.is_true() == coprime(self.value(), MOD::modulus_value()),
            r.1.is_true() ==> (r.0.value() * self.value()) % MOD::modulus_value() == 1nat
                % MOD::modulus_value(),
    {
        proof {
            use_type_invariant(self);
            MOD::lemma_modulus_odd();
        }
        let (form, is_some) = inv_montgomery_form(
            &self.montgomery_form,
            &MOD::modulus(),
            &MOD::r3(),
            MOD::mod_neg_inv(),
            &r_inv::<MOD, LIMBS>(),
        );
        let r = Self::from_form(form);
        proof {
            let m = MOD::modulus_value();
            let mi = m as int;
            let n = LIMBS as nat;
            let whole = radix_pow(n) as int;
            let ri = radix_inverse(m, n) as int;
            let own = self.repr() as int;
            let inv = r.repr() as int;
            self.lemma_canonical();
            r.lemma_canonical();
            lemma_radix_inverse(m, n);
            // The residue and what is kept of it are coprime to the modulus
            // together.
            if coprime(self.repr(), m) {
                lemma_coprime_factor(self.value(), radix_pow(n), m);
            }
            if coprime(self.value(), m) {
                lemma_coprime_factor(self.repr(), radix_inverse(m, n), m);
            }
            if is_some.is_true() {
                // (inv * ri) * (own * ri) * whole * whole is congruent to
                // inv * own, which is congruent to whole * whole.
                lemma_mul_mod_noop(inv * ri, own * ri, mi);
                let prod = (inv * ri) * (own * ri);
                assert((prod * whole) * whole == ((whole * ri) * (whole * ri)) * (inv * own))
                    by (nonlinear_arith)
                    requires
                        prod == (inv * ri) * (own * ri),
                ;
                lemma_mul_mod_noop(whole * ri, whole * ri, mi);
                lemma_mul_mod_noop(1, 1, mi);
                lemma_congruent_mul((whole * ri) * (whole * ri), 1, inv * own, mi);
                assert(1 * (inv * own) == inv * own);
                assert(1 * (whole * whole) == (1 * whole) * whole) by (nonlinear_arith);
                lemma_cancel_radix(prod * whole, 1 * whole, m, n);
                lemma_cancel_radix(prod, 1, m, n);
            }
        }
        (r, is_some)
    }

    /// `b` when `choice` is true, else `a`, without branching on `choice`.
    pub fn conditional_select(a: &Self, b: &Self, choice: CtChoice) -> (r: Self)
        ensures
            r == if choice.is_true() { *b } else { *a },
    {
        proof {
            use_type_invariant(a);
            use_type_invariant(b);
        }
        let form = WideInt::conditional_select(&a.montgomery_form, &b.montgomery_form, choice);
        Self::from_form(form)
    }

    /// Whether two residues are the same, without branching on either.
    pub fn ct_eq(&self, other: &Self) -> (r: CtChoice)
        ensures
            r.is_true() == (*self == *other),
            r.is_true() == (self.value() == other.value()),
    {
        proof {
            use_type_invariant(self);
            use_type_invariant(other);
            self.lemma_canonical();
            other.lemma_canonical();
        }
        self.montgomery_form.ct_eq(&other.montgomery_form)
    }

    /// The encoding of the residue: the bytes of its Montgomery form, least
    /// significant first.
    pub fn encode(&self) -> (r: Vec<u8>)
        ensures
            r@ == limbs_le_bytes(self.form().limbs@),
            r@.len() == 4 * LIMBS,
            le_bytes_value(r@, r@.len()) == self.repr(),
    {
        self.montgomery_form.to_le_bytes()
    }

    /// The residue that `bytes` encode. Bytes of another length than the
    /// encoding has are refused, and so are bytes that encode a number not
    /// below the modulus: such a number is never taken modulo the modulus.
    pub fn decode(bytes: &[u8]) -> (r: Result<Self, DecodeError>)
        ensures
            bytes@.len() != 4 * LIMBS ==> r == Err::<Self, DecodeError>(DecodeError::InvalidLength),
            bytes@.len() == 4 * LIMBS && le_bytes_value(bytes@, bytes@.len())
                >= MOD::modulus_value() ==> r == Err::<Self, DecodeError>(
                DecodeError::NotReduced,
            ),
            bytes@.len() == 4 * LIMBS && le_bytes_value(bytes@, bytes@.len())
                < MOD::modulus_value() ==> (r matches Ok(residue) && residue.repr()
                == le_bytes_value(bytes@, bytes@.len()) && limbs_le_bytes(residue.form().limbs@)
                == bytes@),
    {
        match WideInt::<LIMBS>::from_le_bytes(bytes) {
            None => Err(DecodeError::InvalidLength),
            Some(form) => {
                if form.ct_lt(&MOD::modulus()).to_bool_vartime() {
                    Ok(Self::from_form(form))
                } else {
                    Err(DecodeError::NotReduced)
                }
            },
        }
    }
}

} // verus!
