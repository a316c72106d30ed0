use winter_rand_utils::rand_vector;
use starky::digest_bn128::ElementDigest;
use starky::errors::Error;
use starky::poseidon_bn128::Fr;
use starky::traits::FieldMapping;
use winter_math::fields::f64::BaseElement;
use winter_math::StarkField;

const FR_MODULUS: [u64; 4] = [
    0x43e1f593f0000001,
    0x2833e84879b97091,
    0xb85045b68181585d,
    0x30644e72e131a029,
];

fn below_modulus(limbs: &[u64; 4]) -> bool {
    for i in (0..4).rev() {
        if limbs[i] != FR_MODULUS[i] {
            return limbs[i] < FR_MODULUS[i];
        }
    }
    false
}

#[test]
fn test_fr_to_element_digest_and_versus() {
    let b4 = rand_vector::<BaseElement>(4);
    let b4: Vec<u64> = b4.iter().map(|e| e.as_int()).collect();
    let limbs: [u64; 4] = b4.try_into().unwrap();
    let b4 = ElementDigest::new(limbs);
    match Fr::try_from(b4) {
        Ok(f1) => {
            assert!(below_modulus(&limbs));
            let b4_: ElementDigest = ElementDigest::from(&f1);
            assert_eq!(b4, b4_);
        }
        Err(e) => {
            assert!(!below_modulus(&limbs));
            assert_eq!(e, Error::FieldRange);
        }
    }

    let f: Fr = Fr::from_str(
        "21888242871839275222246405745257275088548364400416034343698204186575808495616", // Fr::MODULE - 1
    )
    .unwrap();

    let e = ElementDigest::from(&f);
    let f2: Fr = e.try_into().unwrap();
    assert_eq!(f, f2);
}

#[test]
fn test_fr_to_mont_to_element_digest_and_versus() {
    let b4: Vec<u64> = vec![3u32, 1003, 2003, 0]
        .iter()
        .map(|e| BaseElement::from(e.clone()).as_int())
        .collect();
    let b4: [u64; 4] = b4[..].try_into().unwrap();
    let f1: Fr = ElementDigest::to_BN128(&b4).unwrap();
    println!("f111 {:?}", f1.to_string());

    // to Montgomery
    let f1 = ElementDigest::to_montgomery(&f1);
    println!("f111 {:?}", f1.to_string());

    let e1 = ElementDigest::to_GL(&f1);
    let expected: [u64; 4] = vec![
        10593660675180540444u64,
        2538813791642109216,
        4942736554053463004,
        3183287946373923876,
    ]
    .iter()
    .map(|e| BaseElement::from(e.clone()).as_int())
    .collect::<Vec<u64>>()
    .try_into()
    .unwrap();
    assert_eq!(expected, e1);
}

#[test]
fn small_digest_wraps_in_neither_direction() {
    let d = ElementDigest::new([7, 8, 9, 10]);
    let f: Fr = d.try_into().unwrap();
    assert_eq!(f.to_limbs(), [7, 8, 9, 10]);
    assert_eq!(ElementDigest::from(&f), d);
    assert_eq!(d.as_elements(), &[7u64, 8, 9, 10][..]);
}

#[test]
fn to_bn128_refuses_the_modulus_and_above() {
    assert_eq!(ElementDigest::to_BN128(&FR_MODULUS), Err(Error::FieldRange));
    let mut above = FR_MODULUS;
    above[0] += 1;
    assert_eq!(ElementDigest::to_BN128(&above), Err(Error::FieldRange));
    assert_eq!(ElementDigest::to_BN128(&[0, 0, 0, u64::MAX]), Err(Error::FieldRange));
    let mut below = FR_MODULUS;
    below[0] -= 1;
    let f = ElementDigest::to_BN128(&below).unwrap();
    assert_eq!(f.to_limbs(), below);
    assert_eq!(Fr::from_limbs(FR_MODULUS), None);
    assert_eq!(Fr::from_limbs(below), Some(f));
}

#[test]
fn to_gl_reduces_each_limb() {
    let f = Fr::from_limbs([0xFFFF_FFFF_0000_0005, u64::MAX, 0xFFFF_FFFF_0000_0001, 1]).unwrap();
    assert_eq!(ElementDigest::to_GL(&f), [4, 0xFFFF_FFFE, 0, 1]);
    assert_eq!(ElementDigest::from(&f), ElementDigest::new([4, 0xFFFF_FFFE, 0, 1]));
    // what comes back through the outer field is the smaller integer, not the first one
    let back = Fr::try_from(ElementDigest::from(&f)).unwrap();
    assert_ne!(back, f);
}

#[test]
fn to_gl_agrees_with_the_inner_field() {
    let limbs = [0xFFFF_FFFF_0000_0005u64, 0xFFFF_FFFF_FFFF_FFFF, 12345, 99];
    let f = Fr::from_limbs(limbs).unwrap();
    let expected: Vec<u64> = limbs.iter().map(|l| BaseElement::from(*l).as_int()).collect();
    assert_eq!(ElementDigest::to_GL(&f).to_vec(), expected);
}

#[test]
fn montgomery_form_of_one_and_zero() {
    let one = ElementDigest::to_montgomery(&Fr::from_u64(1));
    assert_eq!(
        one.to_string(),
        "Fr(0x0e0a77c19a07df2f666ea36f7879462e36fc76959f60cd29ac96341c4ffffffb)"
    );
    assert_eq!(
        one.to_limbs(),
        [
            12436184717236109307,
            3962172157175319849,
            7381016538464732718,
            1011752739694698287
        ]
    );
    let zero = ElementDigest::to_montgomery(&Fr::zero());
    assert!(zero.is_zero());
}

#[test]
fn bytes_are_four_little_endian_words() {
    let d = ElementDigest::new([0x0102030405060708, 1, 0xFFFF_FFFF_FFFF_FFFF, 0x8000000000000000]);
    let bytes = d.as_bytes();
    let mut expected = [0u8; 32];
    expected[..8].copy_from_slice(&[8, 7, 6, 5, 4, 3, 2, 1]);
    expected[8] = 1;
    expected[16..24].copy_from_slice(&[0xff; 8]);
    expected[31] = 0x80;
    assert_eq!(bytes, expected);
    assert_eq!(ElementDigest::from_bytes(&bytes), d);
    let as_array: [u8; 32] = d.into();
    assert_eq!(as_array, expected);
}

#[test]
fn read_from_takes_any_word_and_needs_32_bytes() {
    let mut source = vec![0xffu8; 40];
    source[32] = 7;
    // every word is 2^64 - 1, which is no canonical element: it is kept
    let d = ElementDigest::read_from(&source).unwrap();
    assert_eq!(d, ElementDigest::new([u64::MAX; 4]));
    assert_eq!(ElementDigest::read_from(&source[..32]), Some(d));
    assert_eq!(ElementDigest::read_from(&source[..31]), None);
    assert_eq!(ElementDigest::read_from(&[]), None);
}

#[test]
fn digests_flatten_to_their_elements() {
    let ds = [ElementDigest::new([1, 2, 3, 4]), ElementDigest::new([5, 6, 7, 8])];
    assert_eq!(ElementDigest::digests_as_elements(&ds), vec![1, 2, 3, 4, 5, 6, 7, 8]);
    assert_eq!(ElementDigest::digests_as_elements(&[]), Vec::<u64>::new());
}

#[test]
fn default_and_array_conversions() {
    assert_eq!(ElementDigest::default(), ElementDigest::new([0; 4]));
    let d: ElementDigest = [9u64, 8, 7, 6].into();
    assert_eq!(d, ElementDigest::new([9, 8, 7, 6]));
    let a: [u64; 4] = d.into();
    assert_eq!(a, [9, 8, 7, 6]);
}

#[test]
fn decimal_text_is_read_modulo_the_modulus() {
    assert_eq!(Fr::from_str("0"), Some(Fr::zero()));
    assert_eq!(Fr::from_str("18446744073709551615"), Some(Fr::from_u64(u64::MAX)));
    assert_eq!(
        Fr::from_str(
            "21888242871839275222246405745257275088548364400416034343698204186575808495619"
        ),
        Some(Fr::from_u64(2))
    );
    assert_eq!(Fr::from_str(""), None);
    assert_eq!(Fr::from_str("01"), None);
    assert_eq!(Fr::from_str("12a"), None);
    assert_eq!(Fr::from_str("-1"), None);
}

#[test]
fn text_is_the_hexadecimal_integer() {
    assert_eq!(
        Fr::zero().to_string(),
        "Fr(0x0000000000000000000000000000000000000000000000000000000000000000)"
    );
    assert_eq!(
        Fr::pack3(0x0123456789abcdef, 0xfedcba9876543210, 1).to_string(),
        "Fr(0x00000000000000000000000000000001fedcba98765432100123456789abcdef)"
    );
    assert_eq!(Fr::from_u64(255).to_limbs(), [255, 0, 0, 0]);
}

#[test]
fn values_with_a_limb_above_the_inner_modulus_can_share_a_digest() {
    // the inner modulus itself as lowest limb reduces to zero
    let v = Fr::from_limbs([0xFFFF_FFFF_0000_0001, 0, 0, 0]).unwrap();
    assert_ne!(v, Fr::zero());
    assert_eq!(ElementDigest::from(&v), ElementDigest::from(&Fr::zero()));
    // with canonical limbs the digest holds the limbs themselves
    let w = Fr::from_limbs([0xFFFF_FFFF_0000_0000, 7, 0, 1]).unwrap();
    assert_eq!(ElementDigest::from(&w), ElementDigest::new([0xFFFF_FFFF_0000_0000, 7, 0, 1]));
}
