//! A Merkle sum tree for solvency commitments.
//!
//! A custodian of pooled balances publishes one root commitment: the exact
//! total of all balances together with a binding SHA-256 digest. Each client
//! can then be handed an exclusive allotment proof showing that their own
//! balance was counted exactly once toward that total, without learning any
//! other balance. The tree, the proofs and the verifier are implemented and
//! verified here; only the SHA-256 call itself is taken on trust.

pub mod hashing;
pub mod laws;
pub mod merkle;
pub mod model;
