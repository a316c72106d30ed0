//! The failures that the library reports to its callers.

use vstd::prelude::*;

verus! {

/// Why an operation of this library did not produce a value.
#[derive(Debug, Clone, Copy, PartialEq, Eq, Structural)]
pub enum Error {
    /// Four 64-bit limbs denote an integer that is not below the BN128 scalar modulus.
    FieldRange,
    /// The evaluation matrix does not hold `n_pols * n` elements.
    ShapeMismatch,
    /// A row index is not below the number of rows.
    IndexOutOfRange,
    /// The sponge refused its inputs.
    HashAbsorption,
    /// The operation is not offered by this hasher.
    UnsupportedOperation,
}

} // verus!
