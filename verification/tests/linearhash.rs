use ff_ce::PrimeField;
use starky::digest_bn128::ElementDigest;
use starky::errors::Error;
use starky::linearhash_bn128::LinearHashBN128;
use starky::poseidon_bn128::{Fr, Sponge};
use winter_math::fields::f64::BaseElement;
use winter_math::StarkField;

fn outside(x: &Fr) -> poseidon_rs::Fr {
    poseidon_rs::Fr::from_repr(poseidon_rs::FrRepr(x.to_limbs())).unwrap()
}

#[test]
#[allow(non_snake_case)]
fn test_linearhashBN128() {
    let inputs: Vec<_> = (0..100).collect::<Vec<u64>>();
    let inputs: Vec<Vec<u64>> = inputs
        .iter()
        .map(|e: &u64| {
            vec![
                BaseElement::from(e.clone()).as_int(),
                BaseElement::from(e * 1000).as_int(),
                BaseElement::from(e * 1000000).as_int(),
            ]
        })
        .collect();

    let st = LinearHashBN128::new().hash_element_matrix(&inputs).unwrap();
    assert_eq!(
        st.to_string(),
        "Fr(0x29c2ac38b7b8d18b9c1b575369cb4ab930ef71ebd5e4631b3916360233a29cae)",
    );
}

#[test]
fn reduce_of_nothing_is_zero() {
    let hasher = LinearHashBN128::new();
    let st = hasher.hash_element_matrix(&vec![]).unwrap();
    assert_eq!(st, Fr::zero());
    assert!(st.is_zero());
    let st = hasher.hash_element_matrix(&vec![vec![], vec![]]).unwrap();
    assert_eq!(st, Fr::zero());
}

#[test]
fn one_packed_value_is_returned_as_it_is() {
    let hasher = LinearHashBN128::new();
    let st = hasher.hash_element_matrix(&vec![vec![5]]).unwrap();
    assert_eq!(st, Fr::from_u64(5));
    let st = hasher.hash_element_matrix(&vec![vec![5, 6]]).unwrap();
    assert_eq!(st.to_limbs(), [5, 6, 0, 0]);
    let st = hasher.hash_element_matrix(&vec![vec![5], vec![6, 7]]).unwrap();
    assert_eq!(st.to_limbs(), [5, 6, 7, 0]);
    assert_eq!(st, Fr::pack3(5, 6, 7));
    // the digest of such a row holds the elements themselves
    assert_eq!(hasher.hash_row(&[5, 6, 7]).unwrap(), ElementDigest::new([5, 6, 7, 0]));
}

#[test]
fn two_packed_values_go_through_the_sponge() {
    let hasher = LinearHashBN128::new();
    let st = hasher.hash_element_matrix(&vec![vec![1, 2, 3, 4]]).unwrap();
    let expected = poseidon_rs::Poseidon::new()
        .hash(vec![outside(&Fr::pack3(1, 2, 3)), outside(&Fr::pack3(4, 0, 0))])
        .unwrap();
    assert_eq!(st.to_string(), expected.to_string());
    assert_eq!(
        st.to_string(),
        "Fr(0x0664b9fb94fc90086943931953369e9e50f34f2d105aed77d0737facbf9c5a32)"
    );
}

#[test]
fn elements_are_taken_column_after_column() {
    let hasher = LinearHashBN128::new();
    let by_columns = hasher.hash_element_matrix(&vec![vec![1, 2], vec![3, 4]]).unwrap();
    let one_column = hasher.hash_element_matrix(&vec![vec![1, 2, 3, 4]]).unwrap();
    let transposed = hasher.hash_element_matrix(&vec![vec![1, 3], vec![2, 4]]).unwrap();
    assert_eq!(by_columns, one_column);
    assert_ne!(by_columns, transposed);
}

#[test]
fn reduce_is_the_same_on_every_call() {
    let hasher = LinearHashBN128::new();
    let columns: Vec<Vec<u64>> = (0..7u64).map(|c| (0..9u64).map(|r| c * 100 + r).collect()).collect();
    let first = hasher.hash_element_matrix(&columns).unwrap();
    let second = hasher.hash_element_matrix(&columns).unwrap();
    let other = LinearHashBN128::new().hash_element_matrix(&columns).unwrap();
    assert_eq!(first, second);
    assert_eq!(first, other);
}

#[test]
fn seventeen_packed_values_are_absorbed_in_two_calls() {
    let hasher = LinearHashBN128::new();
    let sponge = Sponge::new();
    let elements: Vec<u64> = (1..=51).collect();
    let st = hasher.hash_element_matrix(&vec![elements.clone()]).unwrap();
    let packed: Vec<Fr> = elements.chunks(3).map(|t| Fr::pack3(t[0], t[1], t[2])).collect();
    assert_eq!(packed.len(), 17);
    let first = sponge.hash(&packed[..16].to_vec(), &Fr::zero()).unwrap();
    let second = sponge.hash(&packed[16..].to_vec(), &first).unwrap();
    assert_eq!(st, second);
    // sixteen values are absorbed in one call
    let st16 = hasher.hash_element_matrix(&vec![elements[..48].to_vec()]).unwrap();
    assert_eq!(st16, first);
}

#[test]
fn sponge_gives_the_published_vectors() {
    let sponge = Sponge::new();
    let one = Fr::from_u64(1);
    let two = Fr::from_u64(2);
    assert_eq!(
        sponge.hash(&vec![one], &Fr::zero()).unwrap().to_string(),
        "Fr(0x29176100eaa962bdc1fe6c654d6a3c130e96a4d1168b33848b897dc502820133)"
    );
    assert_eq!(
        sponge.hash(&vec![one, two], &Fr::zero()).unwrap().to_string(),
        "Fr(0x115cc0f5e7d690413df64c6b9662e9cf2a3617f2743245519e19607a4417189a)"
    );
    let sixteen: Vec<Fr> = (1..=16).map(Fr::from_u64).collect();
    assert_eq!(
        sponge.hash(&sixteen, &Fr::zero()).unwrap().to_string(),
        "Fr(0x16159a551cbb66108281a48099fff949ae08afd7f1f2ec06de2ffb96b919b765)"
    );
    // another state gives another result
    assert_ne!(sponge.hash(&vec![one], &one).unwrap(), sponge.hash(&vec![one], &Fr::zero()).unwrap());
}

#[test]
fn sponge_refuses_no_input_and_more_than_sixteen() {
    let sponge = Sponge::new();
    assert_eq!(sponge.hash(&vec![], &Fr::zero()), Err(Error::HashAbsorption));
    let seventeen: Vec<Fr> = (1..=17).map(Fr::from_u64).collect();
    assert_eq!(sponge.hash(&seventeen, &Fr::zero()), Err(Error::HashAbsorption));
    assert!(!sponge.reaches(0));
    assert!(sponge.reaches(1));
    assert!(sponge.reaches(16));
    assert!(!sponge.reaches(17));
}

#[test]
fn merge_absorbs_both_digests_in_order() {
    let hasher = LinearHashBN128::new();
    let a = ElementDigest::new([1, 2, 3, 4]);
    let b = ElementDigest::new([5, 6, 7, 8]);
    let merged = hasher.merge(&[a, b]).unwrap();
    let expected = poseidon_rs::Poseidon::new()
        .hash(vec![outside(&Fr::try_from(a).unwrap()), outside(&Fr::try_from(b).unwrap())])
        .unwrap();
    let expected = Fr::from_limbs(expected.into_repr().0).unwrap();
    assert_eq!(merged, ElementDigest::from(&expected));
    assert_ne!(merged, hasher.merge(&[b, a]).unwrap());
    assert_eq!(merged, hasher.merge(&[a, b]).unwrap());
}

#[test]
fn merge_refuses_a_digest_outside_the_field() {
    let hasher = LinearHashBN128::new();
    let good = ElementDigest::new([1, 2, 3, 4]);
    let bad = ElementDigest::new([0, 0, 0, u64::MAX]);
    assert_eq!(hasher.merge(&[bad, good]), Err(Error::FieldRange));
    assert_eq!(hasher.merge(&[good, bad]), Err(Error::FieldRange));
}

#[test]
fn merge_with_int_is_not_offered() {
    let seed = ElementDigest::new([1, 2, 3, 4]);
    assert_eq!(LinearHashBN128::merge_with_int(seed, 0), Err(Error::UnsupportedOperation));
    assert_eq!(
        LinearHashBN128::merge_with_int(ElementDigest::default(), u64::MAX),
        Err(Error::UnsupportedOperation)
    );
}

#[test]
fn bytes_are_hashed_as_one_column_of_words() {
    let hasher = LinearHashBN128::new();
    let words: Vec<u64> = vec![1, 2, 3, 4, 0xFFFF_FFFF_0000_0000];
    let mut bytes = Vec::new();
    for w in &words {
        bytes.extend_from_slice(&w.to_le_bytes());
    }
    assert_eq!(hasher.hash(&bytes), hasher.hash_row(&words));
    assert_eq!(hasher.hash(&bytes[..39]), Err(Error::ShapeMismatch));
    assert_eq!(hasher.hash(&bytes[..1]), Err(Error::ShapeMismatch));
    assert_eq!(hasher.hash(&[]), Ok(ElementDigest::default()));
}

#[test]
fn sponge_reaches_every_width() {
    let sponge = Sponge::new();
    for n in 1..=16usize {
        assert!(sponge.reaches(n));
        let inputs: Vec<Fr> = (1..=n as u64).map(Fr::from_u64).collect();
        let expected = poseidon_rs::Poseidon::new()
            .hash(inputs.iter().map(outside).collect())
            .unwrap();
        let got = sponge.hash(&inputs, &Fr::zero()).unwrap();
        assert_eq!(got.to_string(), expected.to_string());
    }
}

#[test]
fn changed_or_swapped_digests_merge_to_another_digest() {
    let hasher = LinearHashBN128::new();
    let a = ElementDigest::new([1, 2, 3, 4]);
    let b = ElementDigest::new([5, 6, 7, 8]);
    let b2 = ElementDigest::new([5, 6, 7, 9]);
    let ab = hasher.merge(&[a, b]).unwrap();
    assert_ne!(ab, hasher.merge(&[a, b2]).unwrap());
    assert_ne!(hasher.merge(&[b, a]).unwrap(), hasher.merge(&[b2, a]).unwrap());
    assert_ne!(ab, hasher.merge(&[b, a]).unwrap());
}
