//! A vector commitment over a matrix of Goldilocks field elements.
//!
//! Rows of the matrix are folded into one BN128 scalar each by a Poseidon
//! sponge, and the row digests are the leaves of a binary Merkle tree.
//!
//! - `constant`: the two moduli and the arithmetic of 64-bit limbs;
//! - `poseidon_bn128`: the outer field and the sponge;
//! - `traits`, `digest_bn128`: the mapping between the fields and the digest;
//! - `bigint`: multiplication and remainder of numbers of any size;
//! - `linearhash_bn128`: the hasher of rows and of pairs of digests;
//! - `merklehash_bn128`: the tree, its proofs and their verification;
//! - `binding`: what a root commits to.

pub mod bigint;
pub mod binding;
pub mod constant;
pub mod digest_bn128;
pub mod errors;
pub mod linearhash_bn128;
pub mod merklehash_bn128;
pub mod poseidon_bn128;
pub mod traits;
