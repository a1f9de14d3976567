//! A FRI (Fast Reed-Solomon IOP) low-degree test: prime-field arithmetic,
//! dense polynomials with even/odd folding, a binary Merkle commitment
//! scheme, a Fiat-Shamir challenge transcript, and the prover/verifier pair
//! for the commit and query phases of the protocol.

pub mod field;
pub mod polynomial;
pub mod hash;
pub mod merkle;
pub mod transcript;
pub mod domain;
pub mod fri;
