//! The digest of four inner-field elements and its mapping to the outer field.

use vstd::prelude::*;
use crate::bigint::{digits_to_limbs, digits_value, limbs_to_digits, mul_mod};
use crate::constant::{
    fr_modulus, gl_modulus, lemma_limbs_of_value, limb_of, limbs_value, offset_2_256, FR_MODULUS_0,
    FR_MODULUS_1, FR_MODULUS_2, FR_MODULUS_3, GL_MODULUS,
};
use crate::errors::Error;
use crate::poseidon_bn128::Fr;
use crate::traits::{spec_to_gl, FieldMapping};

verus! {

/// Four inner-field elements that together stand for one outer-field value:
/// each is one 64-bit limb of its integer, least significant first. An element
/// is kept as the 64-bit word it was given as, canonical or not.
#[derive(Debug, Copy, Clone, Eq)]
pub struct ElementDigest(pub [u64; 4]);

impl View for ElementDigest {
    type V = Seq<u64>;

    open spec fn view(&self) -> Seq<u64> {
        self.0@
    }
}

impl PartialEq for ElementDigest {
    fn eq(&self, other: &Self) -> (r: bool) {
        let r = self.0[0] == other.0[0] && self.0[1] == other.0[1] && self.0[2] == other.0[2]
            && self.0[3] == other.0[3];
        proof {
            if r {
                assert(self.0@ =~= other.0@);
            }
        }
        r
    }
}

impl vstd::std_specs::cmp::PartialEqSpecImpl for ElementDigest {
    open spec fn obeys_eq_spec() -> bool {
        true
    }

    open spec fn eq_spec(&self, other: &Self) -> bool {
        self@ == other@
    }
}

/// The little-endian 64-bit words that a byte sequence is made of; bytes
/// after the last whole word are left out.
pub open spec fn words_of(bytes: Seq<u8>) -> Seq<u64> {
    Seq::new(
        bytes.len() / 8,
        |i: int| vstd::bytes::spec_u64_from_le_bytes(bytes.subrange(8 * i, 8 * i + 8)),
    )
}

/// The bytes of four elements: each as eight bytes, least significant first,
/// in the order of the elements.
pub open spec fn bytes_of(e: Seq<u64>) -> Seq<u8> {
    vstd::bytes::spec_u64_to_le_bytes(e[0]) + vstd::bytes::spec_u64_to_le_bytes(e[1])
        + vstd::bytes::spec_u64_to_le_bytes(e[2]) + vstd::bytes::spec_u64_to_le_bytes(e[3])
}

/// Four elements are read back from their bytes as they were written.
pub proof fn lemma_bytes_round_trip(e: Seq<u64>)
    requires
        e.len() == 4,
    ensures
        bytes_of(e).len() == 32,
        words_of(bytes_of(e)) == e,
{
    vstd::bytes::lemma_auto_spec_u64_to_from_le_bytes();
    let b = bytes_of(e);
    assert(b.len() == 32);
    assert forall|i: int| 0 <= i < 4 implies words_of(b)[i] == e[i] by {
        assert(b.subrange(8 * i, 8 * i + 8) =~= vstd::bytes::spec_u64_to_le_bytes(e[i]));
    }
    assert(words_of(b) =~= e);
}

/// The digest whose elements are `spec_to_gl(v)`.
pub open spec fn digest_of(v: nat) -> ElementDigest {
    ElementDigest(
        [
            (limb_of(v, 0) % gl_modulus()) as u64,
            (limb_of(v, 1) % gl_modulus()) as u64,
            (limb_of(v, 2) % gl_modulus()) as u64,
            (limb_of(v, 3) % gl_modulus()) as u64,
        ],
    )
}

/// The elements of `digest_of(v)` are `spec_to_gl(v)`.
pub proof fn lemma_digest_of_view(v: nat)
    ensures
        digest_of(v)@ == spec_to_gl(v),
{
    assert(digest_of(v)@ =~= spec_to_gl(v));
}

/// The digest of an outer-field value: the limbs of its integer, each reduced
/// modulo the inner modulus.
impl From<&Fr> for ElementDigest {
    fn from(e: &Fr) -> (r: Self) {
        let r = ElementDigest(ElementDigest::to_GL(e));
        proof {
            assert(r.0 =~= digest_of(e@).0);
        }
        r
    }
}

impl vstd::std_specs::convert::FromSpecImpl<&Fr> for ElementDigest {
    open spec fn obeys_from_spec() -> bool {
        true
    }

    open spec fn from_spec(e: &Fr) -> Self {
        digest_of(e@)
    }
}

/// The outer-field value that a digest denotes. Fails where the integer of
/// its limbs is not below the outer modulus.
impl TryFrom<ElementDigest> for Fr {
    type Error = Error;

    fn try_from(value: ElementDigest) -> (r: Result<Fr, Error>) {
        match Fr::from_limbs(value.0) {
            Some(x) => Ok(x),
            None => Err(Error::FieldRange),
        }
    }
}

impl vstd::std_specs::convert::TryFromSpecImpl<ElementDigest> for Fr {
    open spec fn obeys_try_from_spec() -> bool {
        true
    }

    open spec fn try_from_spec(value: ElementDigest) -> Result<Fr, Error> {
        if limbs_value(value@) < fr_modulus() {
            Ok(Fr::of_limbs(value.0))
        } else {
            Err(Error::FieldRange)
        }
    }
}

impl Default for ElementDigest {
    /// The digest of four zero elements.
    fn default() -> (r: Self)
        ensures
            r@ == seq![0u64, 0u64, 0u64, 0u64],
    {
        let r = ElementDigest([0, 0, 0, 0]);
        assert(r@ =~= seq![0u64, 0u64, 0u64, 0u64]);
        r
    }
}

impl From<[u64; 4]> for ElementDigest {
    fn from(value: [u64; 4]) -> (r: Self) {
        Self(value)
    }
}

impl vstd::std_specs::convert::FromSpecImpl<[u64; 4]> for ElementDigest {
    open spec fn obeys_from_spec() -> bool {
        true
    }

    open spec fn from_spec(value: [u64; 4]) -> Self {
        ElementDigest(value)
    }
}

impl From<ElementDigest> for [u64; 4] {
    fn from(value: ElementDigest) -> (r: Self) {
        value.0
    }
}

impl vstd::std_specs::convert::FromSpecImpl<ElementDigest> for [u64; 4] {
    open spec fn obeys_from_spec() -> bool {
        true
    }

    open spec fn from_spec(value: ElementDigest) -> Self {
        value.0
    }
}

impl ElementDigest {
    /// The digest of the four given elements.
    pub fn new(value: [u64; 4]) -> (r: Self)
        ensures
            r@ == value@,
    {
        Self(value)
    }

    /// The four elements in order.
    pub fn as_elements(&self) -> (r: &[u64])
        ensures
            r@ == self@,
    {
        &self.0
    }

    /// The 32 bytes of the digest: each element as eight bytes, least
    /// significant first, in the order of the elements.
    pub fn as_bytes(&self) -> (r: [u8; 32])
        ensures
            r@ == bytes_of(self@),
    {
        let mut result: [u8; 32] = [0; 32];
        let mut i: usize = 0;
        proof {
            vstd::bytes::lemma_auto_spec_u64_to_from_le_bytes();
        }
        while i < 4
            invariant
                i <= 4,
                forall|x: u64| (#[trigger] vstd::bytes::spec_u64_to_le_bytes(x)).len() == 8,
                forall|k: int| 0 <= k < 8 * i ==> result[k] == bytes_of(self@)[k],
            decreases 4 - i,
        {
            let word = vstd::bytes::u64_to_le_bytes(self.0[i]);
            let mut j: usize = 0;
            while j < 8
                invariant
                    i < 4,
                    j <= 8,
                    word.len() == 8,
                    word@ == vstd::bytes::spec_u64_to_le_bytes(self@[i as int]),
                    forall|x: u64| (#[trigger] vstd::bytes::spec_u64_to_le_bytes(x)).len() == 8,
                    forall|k: int| 0 <= k < 8 * i + j ==> result[k] == bytes_of(self@)[k],
                decreases 8 - j,
            {
                result[8 * i + j] = word[j];
                j += 1;
            }
            i += 1;
        }
        assert(result@ =~= bytes_of(self@));
        result
    }

    /// The digest that 32 bytes hold: four little-endian 64-bit words, each
    /// taken as an element as it stands, canonical or not.
    pub fn from_bytes(bytes: &[u8; 32]) -> (r: Self)
        ensures
            r@ == words_of(bytes@),
    {
        let mut words: [u64; 4] = [0; 4];
        let mut i: usize = 0;
        while i < 4
            invariant
                i <= 4,
                forall|k: int| 0 <= k < i ==> words[k] == words_of(bytes@)[k],
            decreases 4 - i,
        {
            let word = vstd::slice::slice_subrange(bytes.as_slice(), 8 * i, 8 * i + 8);
            words[i] = vstd::bytes::u64_from_le_bytes(word);
            i += 1;
        }
        assert(words@ =~= words_of(bytes@));
        ElementDigest(words)
    }

    /// Reads a digest from the first 32 bytes of `source`; there is none
    /// where `source` is shorter. No word is refused for its value.
    pub fn read_from(source: &[u8]) -> (r: Option<Self>)
        ensures
            source.len() >= 32 ==> r.is_some() && r.unwrap()@ == words_of(source@.take(32)),
            source.len() < 32 ==> r.is_none(),
    {
        if source.len() < 32 {
            return None;
        }
        let mut words: [u64; 4] = [0; 4];
        let mut i: usize = 0;
        let ghost head = source@.take(32);
        while i < 4
            invariant
                i <= 4,
                source.len() >= 32,
                head == source@.take(32),
                forall|k: int| 0 <= k < i ==> words[k] == words_of(head)[k],
            decreases 4 - i,
        {
            let word = vstd::slice::slice_subrange(source, 8 * i, 8 * i + 8);
            assert(word@ =~= head.subrange(8 * i, 8 * i + 8));
            words[i] = vstd::bytes::u64_from_le_bytes(word);
            i += 1;
        }
        assert(words@ =~= words_of(head));
        Some(ElementDigest(words))
    }

    /// The elements of all the digests in one sequence: four for each digest,
    /// in the order of the digests.
    pub fn digests_as_elements(digests: &[Self]) -> (r: Vec<u64>)
        ensures
            r.len() == 4 * digests.len(),
            forall|i: int, j: int|
                0 <= i < digests.len() && 0 <= j < 4 ==> r[4 * i + j] == (#[trigger] digests[i]@[j]),
    {
        let mut out: Vec<u64> = Vec::new();
        let mut i: usize = 0;
        while i < digests.len()
            invariant
                i <= digests.len(),
                out.len() == 4 * i,
                forall|a: int, b: int|
                    0 <= a < i && 0 <= b < 4 ==> out[4 * a + b] == (#[trigger] digests[a]@[b]),
            decreases digests.len() - i,
        {
            let d = &digests[i];
            out.push(d.0[0]);
            out.push(d.0[1]);
            out.push(d.0[2]);
            out.push(d.0[3]);
            i += 1;
        }
        out
    }

}

impl FieldMapping for ElementDigest {
    #[allow(non_snake_case)]
    fn to_BN128(e: &[u64; 4]) -> (r: Result<Fr, Error>) {
        match Fr::from_limbs(*e) {
            Some(x) => Ok(x),
            None => Err(Error::FieldRange),
        }
    }

    fn to_montgomery(e: &Fr) -> (r: Fr) {
        let limbs = e.to_limbs();
        let modulus = [FR_MODULUS_0, FR_MODULUS_1, FR_MODULUS_2, FR_MODULUS_3];
        let x = limbs_to_digits(&limbs);
        let m = limbs_to_digits(&modulus);
        let mut shift: Vec<u32> = Vec::new();
        let mut i: usize = 0;
        while i < 8
            invariant
                i <= 8,
                shift.len() == i,
                forall|k: int| 0 <= k < i ==> shift[k] == 0,
            decreases 8 - i,
        {
            shift.push(0);
            i += 1;
        }
        shift.push(1);
        proof {
            reveal_with_fuel(crate::bigint::digits_from, 11);
            assert(digits_value(shift@) == offset_2_256());
            assert(digits_value(m@) == fr_modulus());
            assert(digits_value(x@) * digits_value(shift@) == e@ * offset_2_256())
                by (nonlinear_arith)
                requires
                    digits_value(x@) == e@,
                    digits_value(shift@) == offset_2_256(),
            ;
        }
        let reduced = mul_mod(&x, &shift, &m);
        let out = digits_to_limbs(&reduced);
        Fr::from_limbs(out).unwrap()
    }

    #[allow(non_snake_case)]
    fn to_GL(f: &Fr) -> (r: [u64; 4]) {
        let limbs = f.to_limbs();
        let r = [
            limbs[0] % GL_MODULUS,
            limbs[1] % GL_MODULUS,
            limbs[2] % GL_MODULUS,
            limbs[3] % GL_MODULUS,
        ];
        proof {
            f.lemma_four_limbs();
            lemma_limbs_of_value(f.spec_limbs());
            assert(r@ =~= spec_to_gl(f@));
        }
        r
    }
}

/// The array of the 32 bytes of four elements.
pub open spec fn byte_array_of(e: Seq<u64>) -> [u8; 32] {
    choose|a: [u8; 32]| a@ == bytes_of(e)
}

impl From<ElementDigest> for [u8; 32] {
    fn from(value: ElementDigest) -> (r: Self) {
        let r = value.as_bytes();
        proof {
            assert(r@ == bytes_of(value@));
            assert(r =~= byte_array_of(value@));
        }
        r
    }
}

impl vstd::std_specs::convert::FromSpecImpl<ElementDigest> for [u8; 32] {
    open spec fn obeys_from_spec() -> bool {
        true
    }

    open spec fn from_spec(value: ElementDigest) -> Self {
        byte_array_of(value@)
    }
}

} // verus!
