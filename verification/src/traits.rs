//! The mapping between the inner and the outer field.

use vstd::prelude::*;
use crate::constant::{
    fr_modulus, gl_modulus, lemma_limbs_value_injective, lemma_value_of_limbs, limb_of, limbs_of,
    limbs_value, offset_2_256,
};
use crate::errors::Error;
use crate::poseidon_bn128::Fr;

verus! {

/// The outer-field value that four limbs denote: their integer, which must
/// lie below the outer modulus.
pub open spec fn spec_to_bn128(e: Seq<u64>) -> Result<nat, Error> {
    if limbs_value(e) < fr_modulus() {
        Ok(limbs_value(e))
    } else {
        Err(Error::FieldRange)
    }
}

/// The representative of `v` in the Montgomery domain: `v * 2^256` modulo the
/// outer modulus.
pub open spec fn spec_to_montgomery(v: nat) -> nat {
    (v * offset_2_256()) % fr_modulus()
}

/// The four inner-field elements of an integer below `2^256`: each 64-bit limb,
/// reduced modulo the inner modulus.
pub open spec fn spec_to_gl(v: nat) -> Seq<u64> {
    Seq::new(4, |i: int| (limb_of(v, i as nat) % gl_modulus()) as u64)
}

/// The elements of an outer-field value denote an integer that is not above
/// it: reducing a limb never makes it greater. So they denote a field value.
pub proof fn lemma_to_gl_below(v: nat)
    requires
        v < fr_modulus(),
    ensures
        spec_to_gl(v).len() == 4,
        limbs_value(spec_to_gl(v)) <= v,
        spec_to_bn128(spec_to_gl(v)) is Ok,
{
    lemma_value_of_limbs(v);
    let l = limbs_of(v);
    let g = spec_to_gl(v);
    assert forall|i: int| 0 <= i < 4 implies g[i] <= l[i] by {
        assert(limb_of(v, i as nat) < 0x1_0000_0000_0000_0000nat);
        assert(g[i] == (limb_of(v, i as nat) % gl_modulus()) as u64);
        assert(l[i] == limb_of(v, i as nat) as u64);
    }
    assert(g[0] <= l[0] && g[1] <= l[1] && g[2] <= l[2] && g[3] <= l[3]);
}

/// Every limb of the integer is a canonical inner-field element: it lies
/// below the inner modulus.
pub open spec fn canonical_limbs(v: nat) -> bool {
    forall|i: nat| i < 4 ==> #[trigger] limb_of(v, i) < gl_modulus()
}

/// Two different outer-field values have the same digest.
pub open spec fn digest_collision(v1: nat, v2: nat) -> bool {
    v1 != v2 && spec_to_gl(v1) == spec_to_gl(v2)
}

/// Values whose limbs are canonical do not share a digest: the digest of
/// such a value holds its limbs as they are.
pub proof fn lemma_canonical_digests_differ(v1: nat, v2: nat)
    requires
        v1 < offset_2_256(),
        v2 < offset_2_256(),
        canonical_limbs(v1),
        canonical_limbs(v2),
    ensures
        !digest_collision(v1, v2),
{
    if spec_to_gl(v1) == spec_to_gl(v2) {
        lemma_value_of_limbs(v1);
        lemma_value_of_limbs(v2);
        assert forall|i: int| 0 <= i < 4 implies limbs_of(v1)[i] == limbs_of(v2)[i] by {
            assert(limb_of(v1, i as nat) < gl_modulus());
            assert(limb_of(v2, i as nat) < gl_modulus());
            assert(spec_to_gl(v1)[i] == limb_of(v1, i as nat));
            assert(spec_to_gl(v2)[i] == limb_of(v2, i as nat));
        }
        assert(limbs_of(v1) =~= limbs_of(v2));
    }
}

/// Two different digests of four elements do not denote the same integer.
pub proof fn lemma_digests_denote_apart(a: Seq<u64>, b: Seq<u64>)
    requires
        a.len() == 4,
        b.len() == 4,
        a != b,
    ensures
        limbs_value(a) != limbs_value(b),
{
    if limbs_value(a) == limbs_value(b) {
        lemma_limbs_value_injective(a, b);
    }
}

/// The conversions between tuples of four inner-field elements and values of
/// the outer field.
pub trait FieldMapping {
    /// Maps four inner-field elements to the outer-field value whose integer
    /// has them as limbs. Fails where that integer is not below the outer
    /// modulus: it is never reduced.
    #[allow(non_snake_case)]
    fn to_BN128(e: &[u64; 4]) -> (r: Result<Fr, Error>)
        ensures
            match spec_to_bn128(e@) {
                Ok(v) => r.is_ok() && r.unwrap().wf() && r.unwrap()@ == v,
                Err(err) => r == Err::<Fr, Error>(err),
            },
    ;

    /// Maps an outer-field value to its representative in the Montgomery
    /// domain.
    fn to_montgomery(e: &Fr) -> (r: Fr)
        requires
            e.wf(),
        ensures
            r.wf(),
            r@ == spec_to_montgomery(e@),
    ;

    /// Maps an outer-field value to four inner-field elements: the limbs of
    /// its integer, each reduced modulo the inner modulus.
    #[allow(non_snake_case)]
    fn to_GL(f: &Fr) -> (r: [u64; 4])
        ensures
            r@ == spec_to_gl(f@),
    ;
}

} // verus!
