//! Commitments and inclusion proofs for VeilCore records.
//!
//! A record commitment is SHA-256 over the canonical serialisation of the
//! record's committed fields. Canonical serialisation sorts object keys by
//! code point after NFC normalisation, keeps array order, and refuses a null
//! at any depth and keys that collide after normalisation. Inclusion proofs
//! fold a commitment up a Merkle path whose leaves and interior nodes are
//! domain-separated.

pub mod canonical;
pub mod digest;
pub mod inclusion;
pub mod json;
pub mod laws;
pub mod order;
pub mod reading;
pub mod record;
pub mod text;

pub use canonical::{canonicalise, CanonicalError};
pub use digest::{hex, sha256_hex};
pub use inclusion::{fold_path, fold_path_within_depth, hash_leaf, hash_node, verify_inclusion, ProofStep, MAX_PROOF_DEPTH};
pub use json::JsonValue;
pub use record::{committed_fields, compute_commitment, verify_commitment};
