//! Verified building blocks for zero-knowledge and multi-party cryptography:
//! finite-field arithmetic, Shamir secret sharing, an MPC protocol layer,
//! Pedersen commitments and a Merkle tree, with a few small helpers.
pub mod mpc_shamir;
pub mod merkle_tree;
pub mod pedersen;
mod rng;
pub mod shamir_secret_sharing;
pub mod school;
pub mod helpers;
