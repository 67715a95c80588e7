# zk_foundations

Verified building blocks for zero-knowledge and multi-party cryptography,
written in Verus.

## Layout

- `src/mpc_shamir/` — arithmetic in GF(p) with p = 2^61 − 1 (`field`), a proof
  that p is prime (`primality`, `prime_modulus`), Shamir sharing (`shamir`),
  the correctness of Lagrange reconstruction (`lagrange`), parties and their
  share storage (`party`), the MPC protocol (`protocol`) and what opening its
  results gives (`homomorphism`).
- `src/shamir_secret_sharing.rs` — splitting and reconstructing a secret.
- `src/pedersen.rs` — Pedersen commitments over GF(1 000 000 007) and their
  homomorphic properties.
- `src/merkle_tree.rs` — a fixed-capacity SHA-256 Merkle tree with
  authentication paths.
- `src/school.rs`, `src/helpers.rs` — small helpers: school members'
  electricity usage, filtering, word counts, sums, a memoising cache.
- `src/rng.rs` — the random numbers the sharing draws.
- `tests/` — tests on concrete values.
- `app/` — command-line demonstrations and the sumcheck verifier.

SHA-256 (`sha2`) and the random number generator (`rand`) are called through
small trusted wrappers whose contracts state what the library relies on.
