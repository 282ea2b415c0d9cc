//! Arithmetic on single limbs: each operation returns the exact result as a
//! low limb and what is carried into the next position.

use vstd::prelude::*;

verus! {

/// The low 32 bits of `x`.
pub fn low_word(x: u64) -> (r: u32)
    ensures
        r == x % 0x1_0000_0000,
{
    assert(x & 0xffff_ffff == x % 0x1_0000_0000) by (bit_vector);
    (x & 0xffff_ffff) as u32
}

/// The high 32 bits of `x`.
pub fn high_word(x: u64) -> (r: u32)
    ensures
        r == x / 0x1_0000_0000,
{
    assert(x >> 32 == x / 0x1_0000_0000) by (bit_vector);
    (x >> 32) as u32
}

/// `a + b + carry`, as a limb and the carry out of it.
pub fn adc(a: u32, b: u32, carry: u32) -> (r: (u32, u32))
    ensures
        r.0 + r.1 * 0x1_0000_0000 == a + b + carry,
{
    let t: u64 = a as u64 + b as u64 + carry as u64;
    (low_word(t), high_word(t))
}

/// `a - b - borrow`, as a limb and the borrow out of it, each borrow being 0
/// or 1.
pub fn sbb(a: u32, b: u32, borrow: u32) -> (r: (u32, u32))
    requires
        borrow <= 1,
    ensures
        r.0 - r.1 * 0x1_0000_0000 == a - b - borrow,
        r.1 <= 1,
{
    let t: u64 = a as u64 + 0x1_0000_0000 - b as u64 - borrow as u64;
    (low_word(t), 1 - high_word(t))
}

/// `a + b * c + carry`, as a limb and the carry out of it. The sum always fits
/// two limbs.
pub fn mac(a: u32, b: u32, c: u32, carry: u32) -> (r: (u32, u32))
    ensures
        r.0 + r.1 * 0x1_0000_0000 == a + b * c + carry,
{
    assert(b * c <= 0xffff_ffff * 0xffff_ffff) by (nonlinear_arith)
        requires
            b <= 0xffff_ffff,
            c <= 0xffff_ffff,
    ;
    let t: u64 = a as u64 + (b as u64) * (c as u64) + carry as u64;
    (low_word(t), high_word(t))
}

/// The low limb of `a * b`.
pub fn wrapping_mul(a: u32, b: u32) -> (r: u32)
    ensures
        r == (a * b) % 0x1_0000_0000,
{
    assert(a * b <= 0xffff_ffff * 0xffff_ffff) by (nonlinear_arith)
        requires
            a <= 0xffff_ffff,
            b <= 0xffff_ffff,
    ;
    let t: u64 = (a as u64) * (b as u64);
    low_word(t)
}

} // verus!
