//! Double-width numbers held as a low and a high array of limbs, and the one
//! step that multiplication and Montgomery reduction both take on them.

use crate::arith::{lemma_limbs_value_update, lemma_radix_pow_add, limbs_value, radix_pow};
use crate::limb;
use vstd::prelude::*;

verus! {

/// The number that `lo` and `hi` denote together: `lo + hi * 2^(32 n)`, each
/// taken over its first `n` limbs.
pub open spec fn pair_value(lo: Seq<u32>, hi: Seq<u32>, n: nat) -> nat {
    limbs_value(lo, n) + limbs_value(hi, n) * radix_pow(n)
}

/// The limb at position `p` of the pair, counted from the lowest limb of `lo`.
pub open spec fn pair_limb(lo: Seq<u32>, hi: Seq<u32>, n: nat, p: nat) -> u32 {
    if p < n {
        lo[p as int]
    } else {
        hi[p - n]
    }
}

/// Adds `b * c + carry` into the limb at position `i + j` of the pair and
/// returns the carry out of that limb. No other limb changes.
pub fn mac_at<const LIMBS: usize>(
    lo: &mut [u32; LIMBS],
    hi: &mut [u32; LIMBS],
    i: usize,
    j: usize,
    b: u32,
    c: u32,
    carry: u32,
) -> (next: u32)
    requires
        i < LIMBS,
        j < LIMBS,
    ensures
        pair_value(final(lo)@, final(hi)@, LIMBS as nat) + next * radix_pow((i + j + 1) as nat)
            == pair_value(old(lo)@, old(hi)@, LIMBS as nat) + (b * c + carry) * radix_pow(
            (i + j) as nat,
        ),
        pair_limb(final(lo)@, final(hi)@, LIMBS as nat, (i + j) as nat) + next * 0x1_0000_0000
            == pair_limb(old(lo)@, old(hi)@, LIMBS as nat, (i + j) as nat) + b * c + carry,
        forall|k: int| 0 <= k < LIMBS && k != i + j ==> final(lo)@[k] == old(lo)@[k],
        forall|k: int| 0 <= k < LIMBS && k + LIMBS != i + j ==> final(hi)@[k] == old(hi)@[k],
{
    let ghost n = LIMBS as nat;
    let ghost p = (i + j) as nat;
    let ghost lo0 = lo@;
    let ghost hi0 = hi@;
    let ghost step = radix_pow(p);
    proof {
        assert(radix_pow(p + 1) == 0x1_0000_0000 * step);
    }
    if j < LIMBS - i {
        let (w, next) = limb::mac(lo[i + j], b, c, carry);
        lo[i + j] = w;
        proof {
            let prev = lo0[p as int] as nat;
            lemma_limbs_value_update(lo0, p, w, n);
            assert(w * step + next * (0x1_0000_0000 * step) == prev * step + (b * c + carry)
                * step) by (nonlinear_arith)
                requires
                    w + next * 0x1_0000_0000 == prev + b * c + carry,
            ;
        }
        next
    } else {
        let q: usize = j - (LIMBS - i);
        let (w, next) = limb::mac(hi[q], b, c, carry);
        hi[q] = w;
        proof {
            let prev = hi0[q as int] as nat;
            let inner = radix_pow(q as nat);
            let r = radix_pow(n);
            lemma_limbs_value_update(hi0, q as nat, w, n);
            lemma_radix_pow_add(q as nat, n);
            assert(q + n == p);
            let before = limbs_value(hi0, n);
            let after = limbs_value(hi@, n);
            assert(after * r + next * (0x1_0000_0000 * (inner * r)) == before * r + (b * c
                + carry) * (inner * r)) by (nonlinear_arith)
                requires
                    w + next * 0x1_0000_0000 == prev + b * c + carry,
                    after + prev * inner == before + w * inner,
            ;
        }
        next
    }
}

} // verus!
