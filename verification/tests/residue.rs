use ct_montgomery::ct_choice::CtChoice;
use ct_montgomery::modular::constant_mod::{r_inv, DecodeError, Residue, ResidueParams};
use ct_montgomery::moduli::{Fifteen, Mersenne31, Mersenne61, Prime25519};
use ct_montgomery::uint::WideInt;

type F = Residue<Prime25519, 8>;
type M61 = Residue<Mersenne61, 2>;
type M31 = Residue<Mersenne31, 1>;
type Z15 = Residue<Fifteen, 1>;

const A: [u32; 8] = [
    0x66778899, 0x22334455, 0xeeff0011, 0xaabbccdd, 0x87654321, 0x0fedcba9, 0x89abcdef, 0x01234567,
];
const B: [u32; 8] = [
    0x76543210, 0xfedcba98, 0x89abcdef, 0x01234567, 0xf00d0004, 0xcafe0003, 0xbeef0002, 0x7ead0001,
];

fn w(words: [u32; 8]) -> WideInt<8> {
    WideInt::from_words(words)
}

fn w2(x: u64) -> WideInt<2> {
    WideInt::from_words([x as u32, (x >> 32) as u32])
}

fn v2(x: WideInt<2>) -> u64 {
    let words = x.to_words();
    words[0] as u64 | (words[1] as u64) << 32
}

const M61_MODULUS: u64 = (1 << 61) - 1;

#[test]
fn product_of_five_and_seven() {
    let five = F::new(&WideInt::from_u32(5));
    let seven = F::new(&WideInt::from_u32(7));
    assert_eq!(five.mul(&seven).retrieve(), WideInt::from_u32(35));
}

#[test]
fn half_of_zero() {
    let zero = F::new(&WideInt::from_u32(0));
    assert_eq!(zero.div_by_2().retrieve(), WideInt::from_u32(0));
}

#[test]
fn largest_residue_plus_one_wraps() {
    let mut words = Prime25519::modulus().to_words();
    words[0] -= 1;
    let top = F::new(&WideInt::from_words(words));
    let one = F::new(&WideInt::from_u32(1));
    assert_eq!(top.add(&one).retrieve(), WideInt::from_u32(0));
}

#[test]
fn parameters_of_the_moduli() {
    assert_eq!(
        Prime25519::modulus().to_words(),
        [
            0xffffffed, 0xffffffff, 0xffffffff, 0xffffffff, 0xffffffff, 0xffffffff, 0xffffffff,
            0x7fffffff
        ]
    );
    assert_eq!(Prime25519::r(), WideInt::from_u32(38));
    assert_eq!(Prime25519::r2(), WideInt::from_u32(1444));
    assert_eq!(Prime25519::r3(), WideInt::from_u32(54872));
    assert_eq!(0xffff_ffedu32.wrapping_mul(Prime25519::mod_neg_inv()), 0xffff_ffff);
    assert_eq!(v2(Mersenne61::modulus()), M61_MODULUS);
    assert_eq!(v2(Mersenne61::r()), ((1u128 << 64) % M61_MODULUS as u128) as u64);
    assert_eq!(v2(Mersenne61::r2()), ((1u128 << 64) % M61_MODULUS as u128).pow(2) as u64);
    assert_eq!(v2(Mersenne61::r3()), ((1u128 << 64) % M61_MODULUS as u128).pow(3) as u64);
    assert_eq!(0xffff_ffffu32.wrapping_mul(Mersenne61::mod_neg_inv()), 0xffff_ffff);
    assert_eq!(Mersenne31::modulus().to_words(), [0x7fff_ffff]);
    assert_eq!(Mersenne31::r().to_words(), [2]);
    assert_eq!(0x7fff_ffffu32.wrapping_mul(Mersenne31::mod_neg_inv()), 0xffff_ffff);
    assert_eq!(Fifteen::modulus().to_words(), [15]);
    assert_eq!(Fifteen::r().to_words(), [((1u64 << 32) % 15) as u32]);
    assert_eq!(15u32.wrapping_mul(Fifteen::mod_neg_inv()), 0xffff_ffff);
}

#[test]
fn inverse_of_the_radix() {
    assert_eq!(
        r_inv::<Prime25519, 8>().to_words(),
        [
            0x9435e50a, 0x435e50d7, 0x35e50d79, 0x5e50d794, 0xe50d7943, 0x50d79435, 0x0d79435e,
            0x179435e5
        ]
    );
    assert_eq!(v2(r_inv::<Mersenne61, 2>()), 0x400_0000_0000_0000);
    assert_eq!(r_inv::<Mersenne31, 1>().to_words(), [1 << 30]);
    assert_eq!(r_inv::<Fifteen, 1>().to_words(), [1]);
}

#[test]
fn zero_and_one() {
    assert_eq!(F::zero().retrieve(), WideInt::zero());
    assert_eq!(F::one().retrieve(), WideInt::one());
    assert_eq!(F::default(), F::zero());
    assert_eq!(F::one().as_montgomery(), WideInt::from_u32(38));
    assert_eq!(Z15::one().retrieve(), WideInt::one());
    assert_eq!(M61::one().retrieve(), WideInt::one());
}

#[test]
fn round_trip_below_the_modulus() {
    assert_eq!(F::new(&w(A)).retrieve(), w(A));
    assert_eq!(F::new(&w(B)).retrieve(), w(B));
    for x in [0u64, 1, 2, 0x1234_5678_90ab_cdef, M61_MODULUS - 1] {
        assert_eq!(v2(M61::new(&w2(x)).retrieve()), x);
    }
    for x in 0u32..15 {
        assert_eq!(Z15::new(&WideInt::from_u32(x)).retrieve().to_words(), [x]);
    }
    for x in [0u32, 1, 0x7fff_fffe, 0x1234_5678] {
        assert_eq!(M31::new(&WideInt::from_u32(x)).retrieve().to_words(), [x]);
    }
}

#[test]
fn new_reduces_what_is_not_below_the_modulus() {
    assert_eq!(F::new(&Prime25519::modulus()).retrieve(), WideInt::zero());
    assert_eq!(F::new(&w([0xffff_ffff; 8])).retrieve(), WideInt::from_u32(37));
    for x in [M61_MODULUS, M61_MODULUS + 1, u64::MAX, 0xfedc_ba98_7654_3210] {
        assert_eq!(v2(M61::new(&w2(x)).retrieve()), x % M61_MODULUS);
    }
    for x in [15u32, 16, 0xffff_ffff, 0x8000_0000] {
        assert_eq!(Z15::new(&WideInt::from_u32(x)).retrieve().to_words(), [x % 15]);
        assert_eq!(M31::new(&WideInt::from_u32(x)).retrieve().to_words(), [x % 0x7fff_ffff]);
    }
}

#[test]
fn new_keeps_the_montgomery_form() {
    assert_eq!(F::new(&WideInt::from_u32(5)).as_montgomery(), WideInt::from_u32(190));
    assert_eq!(
        F::new(&w(A)).as_montgomery().to_words(),
        [
            0x35be46b6, 0x139c24ad, 0x79da028b, 0x57e068f1, 0x1907f6ff, 0x5d4c3b2a, 0x6f80917c,
            0x2b3c4d5e
        ]
    );
    assert_eq!(v2(M61::new(&w2(5)).as_montgomery()), 40);
    assert_eq!(v2(M61::new(&w2(0x1234_5678_90ab_cdef)).as_montgomery()), 0x11a2_b3c4_855e_6f7c);
}

#[test]
fn products_agree_with_wide_arithmetic() {
    assert_eq!(
        F::new(&w(A)).mul(&F::new(&w(B))).retrieve().to_words(),
        [
            0xa433b18a, 0x0c8f9d01, 0x04490477, 0xfa6f373f, 0xa45e6ccd, 0x1c129b3f, 0x40332084,
            0x65a45570
        ]
    );
    let values = [0u64, 1, 2, 0x1234_5678_90ab_cdef, 0x0fed_cba9_8765_4321, u64::MAX, M61_MODULUS];
    for x in values {
        for y in values {
            let expected = ((x as u128 % M61_MODULUS as u128) * (y as u128 % M61_MODULUS as u128)
                % M61_MODULUS as u128) as u64;
            assert_eq!(v2(M61::new(&w2(x)).mul(&M61::new(&w2(y))).retrieve()), expected);
        }
    }
    for x in 0u32..15 {
        for y in 0u32..15 {
            let product = Z15::new(&WideInt::from_u32(x)).mul(&Z15::new(&WideInt::from_u32(y)));
            assert_eq!(product.retrieve().to_words(), [x * y % 15]);
        }
    }
}

#[test]
fn sums_differences_and_negations() {
    let a = F::new(&w(A));
    let b = F::new(&w(B));
    assert_eq!(
        a.add(&b).retrieve().to_words(),
        [
            0xdccbbaa9, 0x210ffeed, 0x78aace01, 0xabdf1245, 0x77724325, 0xdaebcbad, 0x489acdf1,
            0x7fd04569
        ]
    );
    assert_eq!(
        a.sub(&b).retrieve().to_words(),
        [
            0xf0235676, 0x235689bc, 0x65533221, 0xa9988776, 0x9758431d, 0x44efcba5, 0xcabccdec,
            0x02764565
        ]
    );
    assert_eq!(
        a.neg().retrieve().to_words(),
        [
            0x99887754, 0xddccbbaa, 0x1100ffee, 0x55443322, 0x789abcde, 0xf0123456, 0x76543210,
            0x7edcba98
        ]
    );
    for x in 0u32..15 {
        for y in 0u32..15 {
            let rx = Z15::new(&WideInt::from_u32(x));
            let ry = Z15::new(&WideInt::from_u32(y));
            assert_eq!(rx.add(&ry).retrieve().to_words(), [(x + y) % 15]);
            assert_eq!(rx.sub(&ry).retrieve().to_words(), [(15 + x - y) % 15]);
        }
        assert_eq!(Z15::new(&WideInt::from_u32(x)).neg().retrieve().to_words(), [(15 - x) % 15]);
    }
}

#[test]
fn a_residue_and_its_negation_sum_to_zero() {
    for words in [A, B, [0; 8], [0xffff_ffff; 8]] {
        let a = F::new(&w(words));
        assert_eq!(a.add(&a.neg()).retrieve(), WideInt::zero());
    }
    for x in [0u64, 1, 0x1234_5678_90ab_cdef, M61_MODULUS - 1, u64::MAX] {
        let a = M61::new(&w2(x));
        assert_eq!(v2(a.add(&a.neg()).retrieve()), 0);
    }
}

#[test]
fn twice_the_half_is_the_residue() {
    let a = F::new(&w(A));
    let half = a.div_by_2();
    assert_eq!(
        half.retrieve().to_words(),
        [
            0xb33bc443, 0x9119a22a, 0xf77f8008, 0xd55de66e, 0xc3b2a190, 0x87f6e5d4, 0xc4d5e6f7,
            0x4091a2b3
        ]
    );
    assert_eq!(half.add(&half), a);
    for x in [0u64, 1, 2, 3, 0x1234_5678_90ab_cdef, M61_MODULUS - 1, u64::MAX] {
        let half = v2(M61::new(&w2(x)).div_by_2().retrieve());
        assert_eq!((half as u128 * 2 % M61_MODULUS as u128) as u64, x % M61_MODULUS);
    }
    assert_eq!(v2(M61::new(&w2(0x1234_5678_90ab_cdef)).div_by_2().retrieve()), 0x191a_2b3c_4855_e6f7);
    for x in 0u32..15 {
        let half = Z15::new(&WideInt::from_u32(x)).div_by_2().retrieve().to_words()[0];
        assert_eq!(half * 2 % 15, x);
    }
}

#[test]
fn inverses_of_units() {
    let a = F::new(&w(A));
    let (inverse, found) = a.invert();
    assert!(found.to_bool_vartime());
    assert_eq!(
        inverse.retrieve().to_words(),
        [
            0xb360af07, 0x6d39afb0, 0xe1b00dca, 0x1b92bc28, 0x69946ac7, 0x1c7fcb29, 0x3b8e5b11,
            0x5e5db647
        ]
    );
    assert_eq!(a.mul(&inverse).retrieve(), WideInt::one());
    let (inverse, found) = M61::new(&w2(0x1234_5678_90ab_cdef)).invert();
    assert!(found.to_bool_vartime());
    assert_eq!(v2(inverse.retrieve()), 0x99c_7370_1ef6_48f5);
    let (inverse, found) = M31::new(&WideInt::from_u32(3)).invert();
    assert!(found.to_bool_vartime());
    assert_eq!(inverse.retrieve().to_words(), [1431655765]);
}

#[test]
fn zero_has_no_inverse() {
    assert!(!F::new(&WideInt::zero()).invert().1.to_bool_vartime());
    assert!(!F::new(&Prime25519::modulus()).invert().1.to_bool_vartime());
    assert!(!M61::zero().invert().1.to_bool_vartime());
    assert!(!M31::zero().invert().1.to_bool_vartime());
    assert!(!Z15::zero().invert().1.to_bool_vartime());
}

#[test]
fn inverses_modulo_a_composite() {
    for x in 0u32..15 {
        let a = Z15::new(&WideInt::from_u32(x));
        let (inverse, found) = a.invert();
        let unit = x % 3 != 0 && x % 5 != 0;
        assert_eq!(found.to_bool_vartime(), unit);
        assert!(inverse.retrieve().to_words()[0] < 15);
        if unit {
            assert_eq!(a.mul(&inverse).retrieve(), WideInt::one());
        }
    }
}

#[test]
fn powers() {
    let a = F::new(&w(A));
    assert_eq!(a.pow(&WideInt::zero()), F::one());
    assert_eq!(a.pow(&WideInt::one()), a);
    assert_eq!(a.pow(&WideInt::from_u32(2)), a.mul(&a));
    assert_eq!(
        a.pow(&WideInt::from_u32(5)).retrieve().to_words(),
        [
            0xab95a028, 0xbc631ac0, 0xa011a90f, 0x53601ca4, 0x3f62b2fa, 0x451d8992, 0x8aadcb3e,
            0x4d29da28
        ]
    );
    assert_eq!(
        a.pow(&w(B)).retrieve().to_words(),
        [
            0x906edeba, 0x980a9c9f, 0x1f7ace17, 0xba3824db, 0x5caa7851, 0x1eb0898b, 0xf063ea45,
            0x75c8c73a
        ]
    );
    assert_eq!(
        v2(M61::new(&w2(0x1234_5678_90ab_cdef)).pow(&w2(0x0fed_cba9_8765_4321)).retrieve()),
        0x1d6a_b478_d792_97ae
    );
    assert_eq!(
        M31::new(&WideInt::from_u32(3)).pow(&WideInt::from_u32(100)).retrieve().to_words(),
        [1200188344]
    );
    // The power zero of zero is one.
    assert_eq!(F::zero().pow(&WideInt::zero()), F::one());
    // Fermat: a^(p - 1) is one.
    let mut exponent = Prime25519::modulus().to_words();
    exponent[0] -= 1;
    assert_eq!(a.pow(&w(exponent)), F::one());
}

#[test]
fn retrieved_numbers_are_below_the_modulus() {
    let p = Prime25519::modulus();
    let a = F::new(&w([0xffff_ffff; 8]));
    let b = F::new(&w(B));
    for r in [a, b, a.add(&b), a.sub(&b), a.mul(&b), a.neg(), a.div_by_2(), a.invert().0, F::zero().invert().0]
    {
        assert!(r.retrieve().ct_lt(&p).to_bool_vartime());
        assert!(r.as_montgomery().ct_lt(&p).to_bool_vartime());
    }
}

#[test]
fn selection_and_equality() {
    let a = F::new(&w(A));
    let b = F::new(&w(B));
    assert_eq!(F::conditional_select(&a, &b, CtChoice::falsity()), a);
    assert_eq!(F::conditional_select(&a, &b, CtChoice::truth()), b);
    assert!(a.ct_eq(&a).to_bool_vartime());
    assert!(!a.ct_eq(&b).to_bool_vartime());
    assert!(a.ct_eq(&F::new(&w(A))).to_bool_vartime());
    assert_eq!(a.clone(), a);
    assert_ne!(a, b);
}

#[test]
fn encoding_is_the_montgomery_form_least_significant_byte_first() {
    let mut expected = vec![0u8; 32];
    expected[0] = 190;
    assert_eq!(F::new(&WideInt::from_u32(5)).encode(), expected);
    assert_eq!(
        F::new(&w(A)).encode(),
        vec![
            182, 70, 190, 53, 173, 36, 156, 19, 139, 2, 218, 121, 241, 104, 224, 87, 255, 246, 7,
            25, 42, 59, 76, 93, 124, 145, 128, 111, 94, 77, 60, 43
        ]
    );
    assert_eq!(M61::new(&w2(5)).encode(), vec![40, 0, 0, 0, 0, 0, 0, 0]);
}

#[test]
fn decoding_what_was_encoded() {
    for words in [A, B, [0; 8], [0xffff_ffff; 8]] {
        let a = F::new(&w(words));
        let bytes = a.encode();
        let decoded = F::decode(&bytes);
        assert_eq!(decoded, Ok(a));
        assert_eq!(decoded.unwrap().encode(), bytes);
    }
    // The largest encoding that is accepted is that of the modulus less one.
    let mut bytes = vec![0xffu8; 32];
    bytes[0] = 0xec;
    bytes[31] = 0x7f;
    let top = F::decode(&bytes).unwrap();
    assert_eq!(top.encode(), bytes);
    assert_eq!(top.as_montgomery().adc(&WideInt::one(), 0).0, Prime25519::modulus());
}

#[test]
fn decoding_refuses_what_is_not_reduced() {
    // The modulus itself.
    let mut bytes = vec![0xffu8; 32];
    bytes[0] = 0xed;
    bytes[31] = 0x7f;
    assert_eq!(F::decode(&bytes), Err(DecodeError::NotReduced));
    // The largest number of the width.
    assert_eq!(F::decode(&[0xff; 32]), Err(DecodeError::NotReduced));
    assert_eq!(M61::decode(&[0xff, 0xff, 0xff, 0xff, 0xff, 0xff, 0xff, 0x1f]), Err(DecodeError::NotReduced));
    assert!(M61::decode(&[0xfe, 0xff, 0xff, 0xff, 0xff, 0xff, 0xff, 0x1f]).is_ok());
    assert_eq!(Z15::decode(&[15, 0, 0, 0]), Err(DecodeError::NotReduced));
    assert!(Z15::decode(&[14, 0, 0, 0]).is_ok());
}

#[test]
fn decoding_refuses_another_length() {
    assert_eq!(F::decode(&[0; 31]), Err(DecodeError::InvalidLength));
    assert_eq!(F::decode(&[0; 33]), Err(DecodeError::InvalidLength));
    assert_eq!(F::decode(&[]), Err(DecodeError::InvalidLength));
    assert_eq!(M61::decode(&[0; 32]), Err(DecodeError::InvalidLength));
}

#[test]
fn decode_errors_in_words() {
    assert_eq!(DecodeError::NotReduced.message(), "montgomery form must be reduced");
    assert_eq!(DecodeError::InvalidLength.message(), "encoding has the wrong length");
}

#[test]
fn a_candidate_must_be_below_the_modulus() {
    assert_eq!(F::from_reduced(&w(A)), Some(F::new(&w(A))));
    assert_eq!(F::from_reduced(&WideInt::zero()), Some(F::zero()));
    assert_eq!(F::from_reduced(&Prime25519::modulus()), None);
    assert_eq!(F::from_reduced(&w([0xffff_ffff; 8])), None);
    assert_eq!(Z15::from_reduced(&WideInt::from_u32(14)).map(|r| r.retrieve().to_words()), Some([14]));
    assert_eq!(Z15::from_reduced(&WideInt::from_u32(15)), None);
}
