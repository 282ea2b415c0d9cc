//! Constant-time arithmetic on residues modulo an odd modulus, kept in
//! Montgomery form over fixed-width integers.
//!
//! [`WideInt`] is an unsigned integer of a fixed number of 32-bit limbs.
//! [`Residue`] is a residue modulo the modulus that a [`ResidueParams`] type
//! stands for. The modules under [`modular`] hold Montgomery reduction and
//! what is built on it; [`risc0`] holds what the library decides for a
//! backend that multiplies in an accelerator.

pub mod arith;
pub mod ct_choice;
pub mod encoding;
pub mod inv_mod;
pub mod limb;
pub mod modmath;
pub mod modular;
pub mod moduli;
pub mod mul_wide;
pub mod risc0;
pub mod uint;
pub mod uint_mod;
pub mod wide;

pub use crate::ct_choice::CtChoice;
pub use crate::modular::constant_mod::{DecodeError, Residue, ResidueParams};
pub use crate::uint::WideInt;
