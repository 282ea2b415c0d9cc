//! Arithmetic modulo an odd modulus on values in Montgomery form.

pub mod constant_mod;
pub mod div_by_2;
pub mod inv;
pub mod laws;
pub mod mul;
pub mod pow;
pub mod reduction;
pub mod repr;
