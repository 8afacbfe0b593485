//! Polynomial IOP building blocks over the scalar field of BN254: multilinear and
//! univariate polynomials, the radix-2 FFT, sum-check, GKR over layered circuits,
//! FRI with Merkle commitments, and multilinear KZG, made non-interactive with a
//! Keccak-256 transcript.
//!
//! - `field`: field elements and their arithmetic, stated modulo the prime.
//! - `transcript`: the Fiat-Shamir sponge.
//! - `merkle_tree`: SHA-256 hash trees and inclusion proofs.
//! - `multilinear`, `univariate`, `product_poly`, `fft`: the polynomial engines.
//! - `sum_check`, `circuit`, `gkr`, `fri`, `kzg`: the protocols.
//! - `integer_poly`: evaluation of small integer polynomials.
//! - `bytes`: copying and comparing byte strings and tables.
use vstd::prelude::*;

pub mod bytes;
pub mod circuit;
pub mod fft;
pub mod field;
pub mod fri;
pub mod gkr;
pub mod integer_poly;
pub mod kzg;
pub mod merkle_tree;
pub mod multilinear;
pub mod poly_algebra;
pub mod product_poly;
pub mod sum_check;
pub mod transcript;
pub mod univariate;

verus! {

} // verus!
