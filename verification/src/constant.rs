//! The two field moduli and the positional weights of 64-bit limbs.

use vstd::prelude::*;

verus! {

/// The Goldilocks prime `2^64 - 2^32 + 1`, modulus of the inner field.
pub const GL_MODULUS: u64 = 0xFFFF_FFFF_0000_0001;

/// The BN128 scalar modulus as four 64-bit limbs, least significant first.
pub const FR_MODULUS_0: u64 = 0x43e1_f593_f000_0001;

pub const FR_MODULUS_1: u64 = 0x2833_e848_79b9_7091;

pub const FR_MODULUS_2: u64 = 0xb850_45b6_8181_585d;

pub const FR_MODULUS_3: u64 = 0x3064_4e72_e131_a029;

/// The most inputs that one call of the sponge absorbs.
pub const SPONGE_RATE: usize = 16;

/// `2^64`, the weight of the second limb.
pub open spec fn offset_2_64() -> nat {
    0x1_0000_0000_0000_0000nat
}

/// `2^128`, the weight of the third limb.
pub open spec fn offset_2_128() -> nat {
    0x1_0000_0000_0000_0000_0000_0000_0000_0000nat
}

/// `2^192`, the weight of the fourth limb.
pub open spec fn offset_2_192() -> nat {
    0x1_0000_0000_0000_0000_0000_0000_0000_0000_0000_0000_0000_0000nat
}

/// `2^256`, the factor of the Montgomery domain.
pub open spec fn offset_2_256() -> nat {
    0x1_0000_0000_0000_0000_0000_0000_0000_0000_0000_0000_0000_0000_0000_0000_0000_0000nat
}

/// The modulus of the inner field as a number.
pub open spec fn gl_modulus() -> nat {
    0xFFFF_FFFF_0000_0001nat
}

/// The modulus of the outer field as a number.
pub open spec fn fr_modulus() -> nat {
    0x3064_4e72_e131_a029_b850_45b6_8181_585d_2833_e848_79b9_7091_43e1_f593_f000_0001nat
}

/// The integer that four 64-bit limbs denote, least significant limb first.
pub open spec fn limbs_value(limbs: Seq<u64>) -> nat
    recommends
        limbs.len() == 4,
{
    (limbs[0] as nat) + (limbs[1] as nat) * offset_2_64() + (limbs[2] as nat) * offset_2_128() + (
    limbs[3] as nat) * offset_2_192()
}

/// The limb at position `i` of the integer `v`, counted from the least significant.
pub open spec fn limb_of(v: nat, i: nat) -> nat
    recommends
        i < 4,
{
    if i == 0 {
        v % offset_2_64()
    } else if i == 1 {
        (v / offset_2_64()) % offset_2_64()
    } else if i == 2 {
        (v / offset_2_128()) % offset_2_64()
    } else {
        (v / offset_2_192()) % offset_2_64()
    }
}

/// The four limbs make up the number they were cut from, and nothing else does.
pub proof fn lemma_limbs_of_value(limbs: Seq<u64>)
    requires
        limbs.len() == 4,
    ensures
        limbs_value(limbs) < offset_2_256(),
        forall|i: nat| i < 4 ==> limb_of(limbs_value(limbs), i) == limbs[i as int],
{
    let a = limbs[0] as int;
    let b = limbs[1] as int;
    let c = limbs[2] as int;
    let d = limbs[3] as int;
    let w = 0x1_0000_0000_0000_0000int;
    let v = limbs_value(limbs) as int;
    assert(offset_2_128() == w * w) by (nonlinear_arith)
        requires
            w == 0x1_0000_0000_0000_0000int,
    ;
    assert(offset_2_192() == w * w * w) by (nonlinear_arith)
        requires
            w == 0x1_0000_0000_0000_0000int,
    ;
    assert(offset_2_256() == w * w * w * w) by (nonlinear_arith)
        requires
            w == 0x1_0000_0000_0000_0000int,
    ;
    assert(v == a + w * (b + w * (c + w * d))) by (nonlinear_arith)
        requires
            v == a + b * w + c * (w * w) + d * (w * w * w),
    ;
    let q1 = b + w * (c + w * d);
    let q2 = c + w * d;
    vstd::arithmetic::div_mod::lemma_fundamental_div_mod_converse(v, w, q1, a);
    vstd::arithmetic::div_mod::lemma_fundamental_div_mod_converse(q1, w, q2, b);
    vstd::arithmetic::div_mod::lemma_fundamental_div_mod_converse(q2, w, d, c);
    vstd::arithmetic::div_mod::lemma_div_denominator(v, w, w);
    vstd::arithmetic::div_mod::lemma_div_denominator(v, w * w, w);
    assert(v / (w * w) == q2);
    assert(v / (w * w * w) == d) by {
        assert((w * w) * w == w * w * w);
    }
    assert(d % w == d) by {
        vstd::arithmetic::div_mod::lemma_small_mod(d as nat, w as nat);
    }
    assert(v < w * w * w * w) by (nonlinear_arith)
        requires
            v == a + w * (b + w * (c + w * d)),
            0 <= a < w,
            0 <= b < w,
            0 <= c < w,
            0 <= d < w,
    ;
    assert forall|i: nat| i < 4 implies limb_of(limbs_value(limbs), i) == limbs[i as int] by {
        if i == 0 {
        } else if i == 1 {
        } else if i == 2 {
        } else {
            assert(i == 3);
        }
    }
}

/// Two sequences of four limbs that denote the same number are the same.
pub proof fn lemma_limbs_value_injective(x: Seq<u64>, y: Seq<u64>)
    requires
        x.len() == 4,
        y.len() == 4,
        limbs_value(x) == limbs_value(y),
    ensures
        x == y,
{
    lemma_limbs_of_value(x);
    lemma_limbs_of_value(y);
    assert forall|i: int| 0 <= i < 4 implies x[i] == y[i] by {
        assert(limb_of(limbs_value(x), i as nat) == x[i]);
        assert(limb_of(limbs_value(y), i as nat) == y[i]);
    }
    assert(x =~= y);
}

/// The four limbs of a number below `2^256`.
pub open spec fn limbs_of(v: nat) -> Seq<u64> {
    Seq::new(4, |i: int| limb_of(v, i as nat) as u64)
}

/// A number below `2^256` is the number that its four limbs denote.
pub proof fn lemma_value_of_limbs(v: nat)
    requires
        v < offset_2_256(),
    ensures
        limbs_value(limbs_of(v)) == v,
        forall|i: nat| i < 4 ==> limb_of(v, i) < offset_2_64(),
{
    let w = 0x1_0000_0000_0000_0000int;
    let x = v as int;
    assert(offset_2_128() == w * w) by (nonlinear_arith)
        requires
            w == 0x1_0000_0000_0000_0000int,
    ;
    assert(offset_2_192() == w * w * w) by (nonlinear_arith)
        requires
            w == 0x1_0000_0000_0000_0000int,
    ;
    assert(offset_2_256() == w * w * w * w) by (nonlinear_arith)
        requires
            w == 0x1_0000_0000_0000_0000int,
    ;
    let q1 = x / w;
    let q2 = q1 / w;
    let q3 = q2 / w;
    vstd::arithmetic::div_mod::lemma_fundamental_div_mod(x, w);
    vstd::arithmetic::div_mod::lemma_fundamental_div_mod(q1, w);
    vstd::arithmetic::div_mod::lemma_fundamental_div_mod(q2, w);
    vstd::arithmetic::div_mod::lemma_div_denominator(x, w, w);
    vstd::arithmetic::div_mod::lemma_div_denominator(x, w * w, w);
    assert((w * w) * w == w * w * w) by (nonlinear_arith);
    assert(q2 == x / (w * w));
    assert(q3 == x / (w * w * w));
    assert(q3 < w) by {
        vstd::arithmetic::div_mod::lemma_div_by_multiple_is_strongly_ordered(
            x,
            w * w * w * w,
            w,
            w * w * w,
        );
        assert(w * w * w * w == w * (w * w * w)) by (nonlinear_arith);
        vstd::arithmetic::div_mod::lemma_div_multiples_vanish(w, w * w * w);
    }
    assert(q3 % w == q3) by {
        vstd::arithmetic::div_mod::lemma_small_mod(q3 as nat, w as nat);
    }
    let l = limbs_of(v);
    assert(l[0] == x % w);
    assert(l[1] == q1 % w);
    assert(l[2] == q2 % w);
    assert(l[3] == q3);
    assert(x == (x % w) + (q1 % w) * w + (q2 % w) * (w * w) + q3 * (w * w * w))
        by (nonlinear_arith)
        requires
            x == w * q1 + x % w,
            q1 == w * q2 + q1 % w,
            q2 == w * q3 + q2 % w,
    ;
    assert forall|i: nat| i < 4 implies limb_of(v, i) < offset_2_64() by {
        if i == 0 {
        } else if i == 1 {
        } else if i == 2 {
        } else {
            assert(i == 3);
        }
    }
}

} // verus!
