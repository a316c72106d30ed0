//! Arbitrary-precision multiplication and remainder, on numbers given by
//! their digits to the base `2^32`.

use vstd::prelude::*;
use num_bigint::BigUint;
use crate::constant::{limbs_value, offset_2_256};

verus! {

/// The number that the digits from position `i` on denote, the digit at `i`
/// being the least significant.
pub open spec fn digits_from(d: Seq<u32>, i: nat) -> nat
    decreases d.len() - i,
{
    if i >= d.len() {
        0
    } else {
        d[i as int] as nat + 0x1_0000_0000 * digits_from(d, i + 1)
    }
}

/// The number that digits to the base `2^32` denote, least significant first.
pub open spec fn digits_value(d: Seq<u32>) -> nat {
    digits_from(d, 0)
}

/// `BigUint` multiplication: the digits of the product of the two numbers.
#[verifier::external_body]
fn big_mul(a: &Vec<u32>, b: &Vec<u32>) -> (r: Vec<u32>)
    ensures
        digits_value(r@) == digits_value(a@) * digits_value(b@),
{
    (BigUint::new(a.clone()) * BigUint::new(b.clone())).to_u32_digits()
}

/// `BigUint` remainder: the digits of the first number modulo the second,
/// which must not be zero.
#[verifier::external_body]
fn big_rem(a: &Vec<u32>, m: &Vec<u32>) -> (r: Vec<u32>)
    requires
        digits_value(m@) > 0,
    ensures
        digits_value(r@) == digits_value(a@) % digits_value(m@),
{
    (BigUint::new(a.clone()) % BigUint::new(m.clone())).to_u32_digits()
}

/// The eight digits of a number given by four 64-bit limbs.
pub fn limbs_to_digits(limbs: &[u64; 4]) -> (d: Vec<u32>)
    ensures
        d.len() == 8,
        digits_value(d@) == limbs_value(limbs@),
{
    let mut d: Vec<u32> = Vec::new();
    d.push((limbs[0] % 0x1_0000_0000) as u32);
    d.push((limbs[0] / 0x1_0000_0000) as u32);
    d.push((limbs[1] % 0x1_0000_0000) as u32);
    d.push((limbs[1] / 0x1_0000_0000) as u32);
    d.push((limbs[2] % 0x1_0000_0000) as u32);
    d.push((limbs[2] / 0x1_0000_0000) as u32);
    d.push((limbs[3] % 0x1_0000_0000) as u32);
    d.push((limbs[3] / 0x1_0000_0000) as u32);
    proof {
        reveal_with_fuel(digits_from, 10);
    }
    d
}

/// The digit at position `i`, or zero past the end.
fn digit_at(d: &Vec<u32>, i: usize) -> (x: u64)
    ensures
        x == if i < d.len() {
            d[i as int]
        } else {
            0u32
        },
{
    if i < d.len() {
        d[i] as u64
    } else {
        0
    }
}

/// The four 64-bit limbs of a number below `2^256` given by its digits.
pub fn digits_to_limbs(d: &Vec<u32>) -> (limbs: [u64; 4])
    requires
        digits_value(d@) < offset_2_256(),
    ensures
        limbs_value(limbs@) == digits_value(d@),
{
    proof {
        reveal_with_fuel(digits_from, 10);
    }
    let l0: u64 = digit_at(d, 0) + 0x1_0000_0000 * digit_at(d, 1);
    let l1: u64 = digit_at(d, 2) + 0x1_0000_0000 * digit_at(d, 3);
    let l2: u64 = digit_at(d, 4) + 0x1_0000_0000 * digit_at(d, 5);
    let l3: u64 = digit_at(d, 6) + 0x1_0000_0000 * digit_at(d, 7);
    let limbs = [l0, l1, l2, l3];
    proof {
        let rest = digits_from(d@, 8);
        let low = l0 as nat + l1 as nat * 0x1_0000_0000_0000_0000nat + l2 as nat
            * 0x1_0000_0000_0000_0000_0000_0000_0000_0000nat + l3 as nat
            * 0x1_0000_0000_0000_0000_0000_0000_0000_0000_0000_0000_0000_0000nat;
        assert(digits_value(d@) == low + rest * offset_2_256());
        assert(rest == 0);
    }
    limbs
}

/// The digits of `a * b mod m`.
pub fn mul_mod(a: &Vec<u32>, b: &Vec<u32>, m: &Vec<u32>) -> (r: Vec<u32>)
    requires
        digits_value(m@) > 0,
    ensures
        digits_value(r@) == (digits_value(a@) * digits_value(b@)) % digits_value(m@),
{
    let product = big_mul(a, b);
    big_rem(&product, m)
}

} // verus!
