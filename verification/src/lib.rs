//! A non-interactive sum-check protocol over multilinear polynomials.
//!
//! A prover convinces a verifier that the evaluations of a multilinear
//! polynomial over the Boolean hypercube add up to a claimed value, without
//! the verifier recomputing the full sum.  Verifier challenges are derived
//! deterministically from the protocol messages by a Fiat-Shamir transcript
//! built on Keccak-256.

pub mod field;
pub mod modp;
pub mod multilinear;
pub mod shamir;
pub mod sumcheck;
pub mod transcript;
pub mod univariate;
