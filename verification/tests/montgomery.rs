use ct_montgomery::modular::div_by_2::div_by_2;
use ct_montgomery::modular::inv::inv_montgomery_form;
use ct_montgomery::modular::mul::mul_montgomery_form;
use ct_montgomery::modular::reduction::montgomery_reduction;
use ct_montgomery::modular::repr::{from_montgomery_form, into_montgomery_form};
use ct_montgomery::uint::WideInt;

const A: [u32; 8] = [
    0x66778899, 0x22334455, 0xeeff0011, 0xaabbccdd, 0x87654321, 0x0fedcba9, 0x89abcdef, 0x01234567,
];
const B: [u32; 8] = [
    0x76543210, 0xfedcba98, 0x89abcdef, 0x01234567, 0xf00d0004, 0xcafe0003, 0xbeef0002, 0x7ead0001,
];
const P: [u32; 8] = [
    0xffffffed, 0xffffffff, 0xffffffff, 0xffffffff, 0xffffffff, 0xffffffff, 0xffffffff, 0x7fffffff,
];
const MONT_A: [u32; 8] = [
    0x35be46b6, 0x139c24ad, 0x79da028b, 0x57e068f1, 0x1907f6ff, 0x5d4c3b2a, 0x6f80917c, 0x2b3c4d5e,
];
const MONT_B: [u32; 8] = [
    0x907f711f, 0xd4c3b2a1, 0x6f80919f, 0x2b3c4d5e, 0xa1ee0098, 0x21b40095, 0x577a006a, 0x4dae0042,
];
const R_INV: [u32; 8] = [
    0x9435e50a, 0x435e50d7, 0x35e50d79, 0x5e50d794, 0xe50d7943, 0x50d79435, 0x0d79435e, 0x179435e5,
];
const NEG_INV: u32 = 0x286b_ca1b;

fn w(words: [u32; 8]) -> WideInt<8> {
    WideInt::from_words(words)
}

#[test]
fn reduction_divides_by_the_radix() {
    // A * B / 2^256 modulo P.
    let product = w(A).mul_wide(&w(B));
    assert_eq!(
        montgomery_reduction(&product, &w(P), NEG_INV).to_words(),
        [
            0xf01c4ec6, 0x72db5bb5, 0xebe6f961, 0xc9f573fa, 0xe2a42b48, 0x94f30415, 0x6d7a9bcd,
            0x09696090
        ]
    );
    // A / 2^256 modulo P.
    assert_eq!(
        montgomery_reduction(&(w(A), WideInt::zero()), &w(P), NEG_INV).to_words(),
        [
            0x902b9106, 0x4b015960, 0xaeb5de51, 0x33a6a056, 0x253f4bdf, 0x0727f126, 0xac0b420d,
            0x4d80ed9d
        ]
    );
    // 2^256 / 2^256 is one, and zero stays zero.
    assert_eq!(
        montgomery_reduction(&(WideInt::zero(), WideInt::one()), &w(P), NEG_INV),
        WideInt::one()
    );
    assert_eq!(
        montgomery_reduction(&(WideInt::zero(), WideInt::zero()), &w(P), NEG_INV),
        WideInt::zero()
    );
}

#[test]
fn reduction_of_the_largest_input() {
    // P * 2^256 - 1 is the largest number that may be reduced: its low half
    // is all ones and its high half is P - 1. The result is P - 1 / 2^256,
    // that is P - R_INV.
    let mut high = P;
    high[0] -= 1;
    let reduced = montgomery_reduction(&(w([0xffff_ffff; 8]), w(high)), &w(P), NEG_INV);
    assert_eq!(reduced, w(P).sub_mod(&w(R_INV), &w(P)).add_mod(&WideInt::zero(), &w(P)));
    assert!(reduced.ct_lt(&w(P)).to_bool_vartime());
}

#[test]
fn into_and_from_montgomery_form() {
    let r2 = WideInt::<8>::from_u32(1444);
    assert_eq!(into_montgomery_form(&w(A), &r2, &w(P), NEG_INV), w(MONT_A));
    assert_eq!(into_montgomery_form(&w(B), &r2, &w(P), NEG_INV), w(MONT_B));
    assert_eq!(
        into_montgomery_form(&WideInt::one(), &r2, &w(P), NEG_INV),
        WideInt::from_u32(38)
    );
    assert_eq!(from_montgomery_form(&w(MONT_A), &w(P), NEG_INV), w(A));
    assert_eq!(from_montgomery_form(&w(MONT_B), &w(P), NEG_INV), w(B));
    assert_eq!(from_montgomery_form(&WideInt::from_u32(38), &w(P), NEG_INV), WideInt::one());
    // A number that is not below the modulus is reduced on the way in.
    assert_eq!(
        into_montgomery_form(&w([0xffff_ffff; 8]), &r2, &w(P), NEG_INV),
        WideInt::from_u32(37 * 38)
    );
    assert_eq!(into_montgomery_form(&w(P), &r2, &w(P), NEG_INV), WideInt::zero());
}

#[test]
fn montgomery_product() {
    assert_eq!(
        mul_montgomery_form(&w(MONT_A), &w(MONT_B), &w(P), NEG_INV).to_words(),
        [
            0x5fac5cb6, 0xdd514e3e, 0xa2d6a9ab, 0x2c82335a, 0x66042693, 0x2ac30b72, 0x8796d39c,
            0x1664aea9
        ]
    );
    // The Montgomery form of one is neutral.
    assert_eq!(
        mul_montgomery_form(&w(MONT_A), &WideInt::from_u32(38), &w(P), NEG_INV),
        w(MONT_A)
    );
}

#[test]
fn montgomery_inverse() {
    let r3 = WideInt::<8>::from_u32(54872);
    let (inverse, found) = inv_montgomery_form(&w(MONT_A), &w(P), &r3, NEG_INV, &w(R_INV));
    assert!(found.to_bool_vartime());
    assert_eq!(
        inverse.to_words(),
        [
            0xa059fd1e, 0x3690143a, 0x80220c0c, 0x17c7ee11, 0xac07d98e, 0x3af82825, 0xd721848a,
            0x01e90e92
        ]
    );
    assert_eq!(
        mul_montgomery_form(&inverse, &w(MONT_A), &w(P), NEG_INV),
        WideInt::from_u32(38)
    );
    let (inverse, found) = inv_montgomery_form(&WideInt::zero(), &w(P), &r3, NEG_INV, &w(R_INV));
    assert!(!found.to_bool_vartime());
    assert!(inverse.ct_lt(&w(P)).to_bool_vartime());
}

#[test]
fn halves() {
    assert_eq!(
        div_by_2(&w(MONT_A), &w(P)).to_words(),
        [
            0x9adf235b, 0x89ce1256, 0xbced0145, 0xabf03478, 0x0c83fb7f, 0x2ea61d95, 0x37c048be,
            0x159e26af
        ]
    );
    // An odd number: (1 + P) / 2 = 2^254 - 9.
    let mut half = [0xffff_ffffu32; 8];
    half[0] = 0xffff_fff7;
    half[7] = 0x3fff_ffff;
    assert_eq!(div_by_2(&WideInt::one(), &w(P)), w(half));
    assert_eq!(div_by_2(&WideInt::zero(), &w(P)), WideInt::zero());
    assert_eq!(div_by_2(&WideInt::from_u32(10), &w(P)), WideInt::from_u32(5));
}

#[test]
fn one_limb_reduction_against_wide_arithmetic() {
    // The modulus 2^31 - 1, whose negated inverse modulo 2^32 is 2^31 + 1.
    let m: u64 = 0x7fff_ffff;
    let modulus = WideInt::<1>::from_u32(m as u32);
    // The inverse of 2^32 modulo m is 2^30, since 2^31 is congruent to one.
    let r_inv: u64 = 1 << 30;
    for t in [0u64, 1, 2, 0x7fff_fffe, 0x1_0000_0000, 0x1234_5678_9abc_def0, m * (1 << 32) - 1] {
        let lo = WideInt::<1>::from_u32(t as u32);
        let hi = WideInt::<1>::from_u32((t >> 32) as u32);
        let reduced = montgomery_reduction(&(lo, hi), &modulus, 0x8000_0001);
        let expected = ((t % m) as u128 * r_inv as u128 % m as u128) as u32;
        assert_eq!(reduced.to_words(), [expected]);
    }
}
