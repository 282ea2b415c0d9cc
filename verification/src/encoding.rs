//! The fixed-width byte encoding of an integer: its bytes, least significant
//! first.

use crate::arith::{lemma_limbs_value_agree, limbs_value, radix_pow};
use crate::uint::WideInt;
use vstd::prelude::*;

verus! {

/// 256 raised to the power `k`.
pub open spec fn byte_pow(k: nat) -> nat
    decreases k,
{
    if k == 0 {
        1
    } else {
        256 * byte_pow((k - 1) as nat)
    }
}

/// The number that the first `n` bytes of `s` denote, least significant byte
/// first.
pub open spec fn le_bytes_value(s: Seq<u8>, n: nat) -> nat
    decreases n,
{
    if n == 0 {
        0
    } else {
        le_bytes_value(s, (n - 1) as nat) + (s[n - 1] as nat) * byte_pow((n - 1) as nat)
    }
}

/// Byte `j` of a limb, counted from the least significant.
pub open spec fn limb_byte(w: u32, j: int) -> u8 {
    if j == 0 {
        (w % 256) as u8
    } else if j == 1 {
        ((w / 0x100) % 256) as u8
    } else if j == 2 {
        ((w / 0x1_0000) % 256) as u8
    } else {
        ((w / 0x100_0000) % 256) as u8
    }
}

/// The encoding of a sequence of limbs: four bytes for each limb, least
/// significant first.
pub open spec fn limbs_le_bytes(limbs: Seq<u32>) -> Seq<u8> {
    Seq::new(4 * limbs.len(), |k: int| limb_byte(limbs[k / 4], k % 4))
}

proof fn lemma_byte_pow_limb(i: nat)
    ensures
        byte_pow(4 * i) == radix_pow(i),
        byte_pow(4 * i + 1) == 0x100 * radix_pow(i),
        byte_pow(4 * i + 2) == 0x1_0000 * radix_pow(i),
        byte_pow(4 * i + 3) == 0x100_0000 * radix_pow(i),
    decreases i,
{
    reveal_with_fuel(byte_pow, 5);
    if i > 0 {
        lemma_byte_pow_limb((i - 1) as nat);
        let p = radix_pow((i - 1) as nat);
        assert(byte_pow(4 * i) == 256 * (256 * (256 * (256 * byte_pow((4 * (i - 1)) as nat)))));
        assert(256 * (256 * (256 * (256 * p))) == 0x1_0000_0000 * p) by (nonlinear_arith);
    }
    let q = radix_pow(i);
    assert(256 * (256 * q) == 0x1_0000 * q) by (nonlinear_arith);
    assert(256 * (256 * (256 * q)) == 0x100_0000 * q) by (nonlinear_arith);
}

/// Byte sequences that agree on their first `n` bytes denote the same number
/// there.
proof fn lemma_le_bytes_value_agree(s: Seq<u8>, t: Seq<u8>, n: nat)
    requires
        forall|i: int| 0 <= i < n ==> s[i] == t[i],
    ensures
        le_bytes_value(s, n) == le_bytes_value(t, n),
    decreases n,
{
    if n > 0 {
        lemma_le_bytes_value_agree(s, t, (n - 1) as nat);
    }
}

/// The four bytes of limb `i` add `w * 2^(32 i)` to the number denoted.
proof fn lemma_le_bytes_value_limb(s: Seq<u8>, i: nat, w: u32)
    requires
        w == s[4 * i as int] + 0x100 * s[4 * i as int + 1] + 0x1_0000 * s[4 * i as int + 2]
            + 0x100_0000 * s[4 * i as int + 3],
    ensures
        le_bytes_value(s, 4 * i + 4) == le_bytes_value(s, 4 * i) + w * radix_pow(i),
{
    lemma_byte_pow_limb(i);
    reveal_with_fuel(le_bytes_value, 5);
    let p = radix_pow(i);
    let b0 = s[4 * i as int] as nat;
    let b1 = s[4 * i as int + 1] as nat;
    let b2 = s[4 * i as int + 2] as nat;
    let b3 = s[4 * i as int + 3] as nat;
    assert(le_bytes_value(s, 4 * i + 4) == le_bytes_value(s, 4 * i) + b0 * byte_pow(4 * i) + b1
        * byte_pow(4 * i + 1) + b2 * byte_pow(4 * i + 2) + b3 * byte_pow(4 * i + 3));
    assert(b0 * p + b1 * (0x100 * p) + b2 * (0x1_0000 * p) + b3 * (0x100_0000 * p) == (b0 + 0x100
        * b1 + 0x1_0000 * b2 + 0x100_0000 * b3) * p) by (nonlinear_arith);
}

/// The bytes of a limb, least significant first, and that they make it up.
fn split_limb(w: u32) -> (r: (u8, u8, u8, u8))
    ensures
        r.0 == limb_byte(w, 0),
        r.1 == limb_byte(w, 1),
        r.2 == limb_byte(w, 2),
        r.3 == limb_byte(w, 3),
        w == r.0 + 0x100 * r.1 + 0x1_0000 * r.2 + 0x100_0000 * r.3,
{
    let b0: u32 = w & 0xff;
    let b1: u32 = (w >> 8) & 0xff;
    let b2: u32 = (w >> 16) & 0xff;
    let b3: u32 = w >> 24;
    assert(b0 == w % 256 && b1 == (w / 0x100) % 256 && b2 == (w / 0x1_0000) % 256 && b3 == (w
        / 0x100_0000) % 256 && b3 < 256 && w == b0 + 0x100 * b1 + 0x1_0000 * b2 + 0x100_0000
        * b3) by (bit_vector)
        requires
            b0 == w & 0xff,
            b1 == (w >> 8) & 0xff,
            b2 == (w >> 16) & 0xff,
            b3 == w >> 24,
    ;
    (b0 as u8, b1 as u8, b2 as u8, b3 as u8)
}

/// The limb that four bytes make up, least significant first.
fn join_limb(b0: u8, b1: u8, b2: u8, b3: u8) -> (w: u32)
    ensures
        w == b0 + 0x100 * b1 + 0x1_0000 * b2 + 0x100_0000 * b3,
        b0 == limb_byte(w, 0),
        b1 == limb_byte(w, 1),
        b2 == limb_byte(w, 2),
        b3 == limb_byte(w, 3),
{
    let w0: u32 = b0 as u32;
    let w1: u32 = b1 as u32;
    let w2: u32 = b2 as u32;
    let w3: u32 = b3 as u32;
    let w: u32 = w0 | (w1 << 8) | (w2 << 16) | (w3 << 24);
    assert(w == w0 + 0x100 * w1 + 0x1_0000 * w2 + 0x100_0000 * w3 && w0 == w % 256 && w1 == (w
        / 0x100) % 256 && w2 == (w / 0x1_0000) % 256 && w3 == (w / 0x100_0000) % 256)
        by (bit_vector)
        requires
            w == w0 | (w1 << 8) | (w2 << 16) | (w3 << 24),
            w0 < 256,
            w1 < 256,
            w2 < 256,
            w3 < 256,
    ;
    w
}

impl<const LIMBS: usize> WideInt<LIMBS> {
    /// The encoding of the integer: its `4 LIMBS` bytes, least significant
    /// first.
    pub fn to_le_bytes(&self) -> (r: Vec<u8>)
        ensures
            r@ == limbs_le_bytes(self.limbs@),
            r@.len() == 4 * LIMBS,
            le_bytes_value(r@, r@.len()) == self.value(),
    {
        let mut out: Vec<u8> = Vec::new();
        let mut i: usize = 0;
        while i < LIMBS
            invariant
                i <= LIMBS,
                out@.len() == 4 * i,
                forall|k: int| 0 <= k < 4 * i ==> out@[k] == limb_byte(self.limbs@[k / 4], k % 4),
                le_bytes_value(out@, (4 * i) as nat) == limbs_value(self.limbs@, i as nat),
            decreases LIMBS - i,
        {
            let ghost before = out@;
            let (b0, b1, b2, b3) = split_limb(self.limbs[i]);
            out.push(b0);
            out.push(b1);
            out.push(b2);
            out.push(b3);
            proof {
                lemma_le_bytes_value_agree(before, out@, (4 * i) as nat);
                lemma_le_bytes_value_limb(out@, i as nat, self.limbs@[i as int]);
            }
            i += 1;
        }
        proof {
            assert(out@ =~= limbs_le_bytes(self.limbs@));
        }
        out
    }

    /// The integer that `bytes` encode, least significant byte first, where
    /// there are `4 LIMBS` of them; else nothing.
    pub fn from_le_bytes(bytes: &[u8]) -> (r: Option<Self>)
        ensures
            r.is_some() == (bytes@.len() == 4 * LIMBS),
            r matches Some(w) ==> w.value() == le_bytes_value(bytes@, bytes@.len())
                && limbs_le_bytes(w.limbs@) == bytes@,
    {
        if bytes.len() % 4 != 0 || bytes.len() / 4 != LIMBS {
            return None;
        }
        let mut limbs = [0u32; LIMBS];
        let mut i: usize = 0;
        while i < LIMBS
            invariant
                i <= LIMBS,
                bytes@.len() == 4 * LIMBS,
                bytes@.len() <= usize::MAX,
                forall|k: int| 0 <= k < 4 * i ==> bytes@[k] == limb_byte(limbs@[k / 4], k % 4),
                le_bytes_value(bytes@, (4 * i) as nat) == limbs_value(limbs@, i as nat),
            decreases LIMBS - i,
        {
            let ghost before = limbs@;
            let at: usize = 4 * i;
            let w = join_limb(bytes[at], bytes[at + 1], bytes[at + 2], bytes[at + 3]);
            limbs[i] = w;
            proof {
                lemma_limbs_value_agree(before, limbs@, i as nat);
                lemma_le_bytes_value_limb(bytes@, i as nat, w);
            }
            i += 1;
        }
        proof {
            assert(limbs_le_bytes(limbs@) =~= bytes@);
        }
        Some(WideInt { limbs })
    }
}

} // verus!
