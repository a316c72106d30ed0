use starky::bigint::{digits_to_limbs, limbs_to_digits, mul_mod};
use starky::poseidon_bn128::limbs_in_field;

#[test]
fn limbs_split_into_halves() {
    let limbs = [0x0000_0001_0000_0002u64, 3, 0, 0xffff_ffff_0000_0000];
    assert_eq!(limbs_to_digits(&limbs), vec![2, 1, 3, 0, 0, 0, 0, 0xffff_ffff]);
    assert_eq!(digits_to_limbs(&limbs_to_digits(&limbs)), limbs);
}

#[test]
fn short_and_padded_digits_are_read() {
    assert_eq!(digits_to_limbs(&vec![2, 1, 3]), [0x0000_0001_0000_0002, 3, 0, 0]);
    assert_eq!(digits_to_limbs(&vec![]), [0, 0, 0, 0]);
    assert_eq!(digits_to_limbs(&vec![5, 0, 0, 0, 0, 0, 0, 0, 0, 0]), [5, 0, 0, 0]);
}

#[test]
fn product_is_reduced() {
    assert_eq!(digits_to_limbs(&mul_mod(&vec![7], &vec![6], &vec![5])), [2, 0, 0, 0]);
    assert_eq!(digits_to_limbs(&mul_mod(&vec![7], &vec![], &vec![5])), [0, 0, 0, 0]);
    // 2^32 * 2^32 = 2^64 = 1 modulo 2^64 - 1
    let r = mul_mod(&vec![0, 1], &vec![0, 1], &vec![0xffff_ffff, 0xffff_ffff]);
    assert_eq!(digits_to_limbs(&r), [1, 0, 0, 0]);
    // a product below the modulus is the product
    let r = mul_mod(&vec![0xffff_ffff], &vec![0xffff_ffff], &vec![0, 0, 1]);
    assert_eq!(digits_to_limbs(&r), [0xffff_fffe_0000_0001, 0, 0, 0]);
}

#[test]
fn field_membership_goes_by_the_highest_limb_that_differs() {
    let modulus = [
        0x43e1f593f0000001u64,
        0x2833e84879b97091,
        0xb85045b68181585d,
        0x30644e72e131a029,
    ];
    assert!(!limbs_in_field(&modulus));
    assert!(limbs_in_field(&[0, 0, 0, 0]));
    assert!(limbs_in_field(&[u64::MAX, u64::MAX, u64::MAX, 0x30644e72e131a028]));
    assert!(!limbs_in_field(&[0, 0, 0, 0x30644e72e131a02a]));
    assert!(limbs_in_field(&[u64::MAX, u64::MAX, 0xb85045b68181585c, 0x30644e72e131a029]));
    assert!(!limbs_in_field(&[0, 0x2833e84879b97092, 0xb85045b68181585d, 0x30644e72e131a029]));
    assert!(limbs_in_field(&[0x43e1f593f0000000, 0x2833e84879b97091, 0xb85045b68181585d, 0x30644e72e131a029]));
}
