use ct_montgomery::ct_choice::CtChoice;
use ct_montgomery::limb;
use ct_montgomery::uint::WideInt;

const A: [u32; 8] = [
    0x66778899, 0x22334455, 0xeeff0011, 0xaabbccdd, 0x87654321, 0x0fedcba9, 0x89abcdef, 0x01234567,
];
const B: [u32; 8] = [
    0x76543210, 0xfedcba98, 0x89abcdef, 0x01234567, 0xf00d0004, 0xcafe0003, 0xbeef0002, 0x7ead0001,
];
const P: [u32; 8] = [
    0xffffffed, 0xffffffff, 0xffffffff, 0xffffffff, 0xffffffff, 0xffffffff, 0xffffffff, 0x7fffffff,
];

fn w(words: [u32; 8]) -> WideInt<8> {
    WideInt::from_words(words)
}

#[test]
fn limb_adc_carries() {
    assert_eq!(limb::adc(0xffff_ffff, 1, 0), (0, 1));
    assert_eq!(limb::adc(0xffff_ffff, 0xffff_ffff, 1), (0xffff_ffff, 1));
    assert_eq!(limb::adc(1, 2, 3), (6, 0));
    assert_eq!(limb::adc(0xffff_ffff, 0xffff_ffff, 0xffff_ffff), (0xffff_fffd, 2));
}

#[test]
fn limb_sbb_borrows() {
    assert_eq!(limb::sbb(0, 1, 0), (0xffff_ffff, 1));
    assert_eq!(limb::sbb(5, 3, 1), (1, 0));
    assert_eq!(limb::sbb(0, 0xffff_ffff, 1), (0, 1));
    assert_eq!(limb::sbb(7, 7, 0), (0, 0));
}

#[test]
fn limb_mac_fills_two_limbs() {
    assert_eq!(
        limb::mac(0xffff_ffff, 0xffff_ffff, 0xffff_ffff, 0xffff_ffff),
        (0xffff_ffff, 0xffff_ffff)
    );
    assert_eq!(limb::mac(1, 2, 3, 4), (11, 0));
    assert_eq!(limb::mac(0, 0x1_0000, 0x1_0000, 0), (0, 1));
}

#[test]
fn limb_wrapping_mul_keeps_the_low_limb() {
    assert_eq!(limb::wrapping_mul(0xffff_ffed, 0x286b_ca1b), 0xffff_ffff);
    assert_eq!(limb::wrapping_mul(3, 5), 15);
    assert_eq!(limb::low_word(0x1234_5678_9abc_def0), 0x9abc_def0);
    assert_eq!(limb::high_word(0x1234_5678_9abc_def0), 0x1234_5678);
}

#[test]
fn words_go_in_and_come_out() {
    assert_eq!(w(A).to_words(), A);
    assert_eq!(WideInt::<8>::zero().to_words(), [0u32; 8]);
    assert_eq!(WideInt::<8>::one().to_words(), [1, 0, 0, 0, 0, 0, 0, 0]);
    assert_eq!(WideInt::<2>::from_u32(7).to_words(), [7, 0]);
}

#[test]
fn adc_adds_with_carry() {
    let (sum, carry) = w(A).adc(&w(B), 0);
    assert_eq!(
        sum.to_words(),
        [
            0xdccbbaa9, 0x210ffeed, 0x78aace01, 0xabdf1245, 0x77724325, 0xdaebcbad, 0x489acdf1,
            0x7fd04569
        ]
    );
    assert_eq!(carry, 0);
    let all = w([0xffff_ffff; 8]);
    let (sum, carry) = all.adc(&WideInt::one(), 0);
    assert_eq!(sum, WideInt::zero());
    assert_eq!(carry, 1);
    let (sum, carry) = all.adc(&all, 1);
    assert_eq!(sum, all);
    assert_eq!(carry, 1);
}

#[test]
fn sbb_subtracts_with_borrow() {
    let (difference, borrow) = w(A).sbb(&w(B), 0);
    assert_eq!(
        difference.to_words(),
        [
            0xf0235689, 0x235689bc, 0x65533221, 0xa9988776, 0x9758431d, 0x44efcba5, 0xcabccdec,
            0x82764565
        ]
    );
    assert_eq!(borrow, 1);
    let (difference, borrow) = w(B).sbb(&w(B), 0);
    assert_eq!(difference, WideInt::zero());
    assert_eq!(borrow, 0);
    let (difference, borrow) = WideInt::<8>::zero().sbb(&WideInt::zero(), 1);
    assert_eq!(difference, w([0xffff_ffff; 8]));
    assert_eq!(borrow, 1);
}

#[test]
fn comparisons() {
    assert!(w(A).ct_lt(&w(B)).to_bool_vartime());
    assert!(!w(B).ct_lt(&w(A)).to_bool_vartime());
    assert!(!w(A).ct_lt(&w(A)).to_bool_vartime());
    assert!(w(A).ct_eq(&w(A)).to_bool_vartime());
    assert!(!w(A).ct_eq(&w(B)).to_bool_vartime());
    let mut other = A;
    other[7] ^= 0x8000_0000;
    assert!(!w(A).ct_eq(&w(other)).to_bool_vartime());
    assert!(w(A).ct_is_odd().to_bool_vartime());
    assert!(!w(B).ct_is_odd().to_bool_vartime());
}

#[test]
fn conditional_select_takes_the_second_when_true() {
    assert_eq!(WideInt::conditional_select(&w(A), &w(B), CtChoice::truth()), w(B));
    assert_eq!(WideInt::conditional_select(&w(A), &w(B), CtChoice::falsity()), w(A));
}

#[test]
fn mul_wide_gives_both_halves() {
    let (lo, hi) = w(A).mul_wide(&w(B));
    assert_eq!(
        lo.to_words(),
        [
            0x185a6b90, 0xd181f061, 0x2da98751, 0x2723a66b, 0xa204d392, 0x5aeedd7f, 0x310512ef,
            0x503f6f9b
        ]
    );
    assert_eq!(
        hi.to_words(),
        [
            0xc04fd2af, 0xdfdeacf6, 0xae11abb6, 0xbb7483cf, 0x79533330, 0x051526ad, 0xdeb71b4e,
            0x009020fe
        ]
    );
    let all = w([0xffff_ffff; 8]);
    let (lo, hi) = all.mul_wide(&all);
    assert_eq!(lo, WideInt::one());
    let mut top = [0xffff_ffffu32; 8];
    top[0] = 0xffff_fffe;
    assert_eq!(hi, w(top));
    let (lo, hi) = w(A).mul_wide(&WideInt::zero());
    assert_eq!(lo, WideInt::zero());
    assert_eq!(hi, WideInt::zero());
}

#[test]
fn mul_wide_on_one_limb() {
    let a = WideInt::<1>::from_u32(0xdead_beef);
    let b = WideInt::<1>::from_u32(0xcafe_f00d);
    let product = 0xdead_beefu64 * 0xcafe_f00du64;
    let (lo, hi) = a.mul_wide(&b);
    assert_eq!(lo.to_words(), [product as u32]);
    assert_eq!(hi.to_words(), [(product >> 32) as u32]);
}

#[test]
fn modular_sum_difference_and_negation() {
    let p = w(P);
    assert_eq!(
        w(A).add_mod(&w(B), &p).to_words(),
        [
            0xdccbbaa9, 0x210ffeed, 0x78aace01, 0xabdf1245, 0x77724325, 0xdaebcbad, 0x489acdf1,
            0x7fd04569
        ]
    );
    assert_eq!(
        w(A).sub_mod(&w(B), &p).to_words(),
        [
            0xf0235676, 0x235689bc, 0x65533221, 0xa9988776, 0x9758431d, 0x44efcba5, 0xcabccdec,
            0x02764565
        ]
    );
    assert_eq!(
        w(A).neg_mod(&p).to_words(),
        [
            0x99887754, 0xddccbbaa, 0x1100ffee, 0x55443322, 0x789abcde, 0xf0123456, 0x76543210,
            0x7edcba98
        ]
    );
    assert_eq!(WideInt::<8>::zero().neg_mod(&p), WideInt::zero());
    let mut top = P;
    top[0] -= 1;
    assert_eq!(w(top).add_mod(&WideInt::one(), &p), WideInt::zero());
    assert_eq!(w(top).add_mod(&w(top), &p).to_words(), {
        let mut t = P;
        t[0] -= 2;
        t
    });
}

#[test]
fn reduce_once_subtracts_at_most_once() {
    let p = w(P);
    assert_eq!(w(A).reduce_once(0, &p), w(A));
    assert_eq!(p.reduce_once(0, &p), WideInt::zero());
    // With the modulus m = 2^32 - 5, the number 2^32 + 5 is m + 10.
    let m = WideInt::<1>::from_u32(0xffff_fffb);
    assert_eq!(WideInt::<1>::from_u32(5).reduce_once(1, &m).to_words(), [10]);
}

#[test]
fn shr1_with_carry_halves() {
    assert_eq!(
        w(A).shr1_with_carry(0).to_words(),
        [
            0xb33bc44c, 0x9119a22a, 0xf77f8008, 0xd55de66e, 0xc3b2a190, 0x87f6e5d4, 0xc4d5e6f7,
            0x0091a2b3
        ]
    );
    let mut expected = [0u32; 8];
    expected[7] = 0x8000_0000;
    assert_eq!(WideInt::<8>::zero().shr1_with_carry(1).to_words(), expected);
    assert_eq!(WideInt::<1>::from_u32(3).shr1_with_carry(1).to_words(), [0x8000_0001]);
}

#[test]
fn le_bytes_round_trip() {
    let bytes = w(A).to_le_bytes();
    assert_eq!(bytes.len(), 32);
    assert_eq!(&bytes[..8], &[0x99, 0x88, 0x77, 0x66, 0x55, 0x44, 0x33, 0x22]);
    assert_eq!(&bytes[28..], &[0x67, 0x45, 0x23, 0x01]);
    assert_eq!(WideInt::<8>::from_le_bytes(&bytes), Some(w(A)));
    assert_eq!(WideInt::<8>::from_le_bytes(&bytes[..31]), None);
    assert_eq!(WideInt::<4>::from_le_bytes(&bytes), None);
    assert_eq!(WideInt::<8>::from_le_bytes(&[]), None);
    assert_eq!(WideInt::<0>::from_le_bytes(&[]), Some(WideInt::<0>::zero()));
    assert_eq!(
        WideInt::<1>::from_le_bytes(&[0x78, 0x56, 0x34, 0x12]),
        Some(WideInt::from_u32(0x1234_5678))
    );
}

#[test]
fn inverse_modulo_an_odd_modulus() {
    let p = w(P);
    let (inverse, found) = WideInt::<8>::from_u32(5).inv_odd_mod(&p);
    assert!(found.to_bool_vartime());
    assert_eq!(
        inverse.to_words(),
        [
            0x99999996, 0x99999999, 0x99999999, 0x99999999, 0x99999999, 0x99999999, 0x99999999,
            0x19999999
        ]
    );
    let (inverse, found) = w(A).inv_odd_mod(&p);
    assert!(found.to_bool_vartime());
    assert_eq!(
        inverse.to_words(),
        [
            0xb360af07, 0x6d39afb0, 0xe1b00dca, 0x1b92bc28, 0x69946ac7, 0x1c7fcb29, 0x3b8e5b11,
            0x5e5db647
        ]
    );
    let (_, found) = WideInt::<8>::zero().inv_odd_mod(&p);
    assert!(!found.to_bool_vartime());
    let (_, found) = p.inv_odd_mod(&p);
    assert!(!found.to_bool_vartime());
}

#[test]
fn inverse_modulo_fifteen() {
    let m = WideInt::<1>::from_u32(15);
    for x in 0u32..60 {
        let (inverse, found) = WideInt::<1>::from_u32(x).inv_odd_mod(&m);
        let coprime = x % 3 != 0 && x % 5 != 0;
        assert_eq!(found.to_bool_vartime(), coprime);
        let v = inverse.to_words()[0];
        assert!(v < 15);
        if coprime {
            assert_eq!((x * v) % 15, 1);
        }
    }
}

#[test]
fn inverse_modulo_one() {
    let m = WideInt::<1>::from_u32(1);
    let (inverse, found) = WideInt::<1>::from_u32(0).inv_odd_mod(&m);
    assert!(found.to_bool_vartime());
    assert_eq!(inverse.to_words(), [0]);
}
