//! Multi-party computation over GF(p) with Shamir shares.
pub mod field;
pub mod shamir;
pub mod party;
pub mod protocol;
pub mod lagrange;
pub mod homomorphism;
pub mod primality;
pub mod prime_modulus;
