//! Core of a membership-proof service: a Poseidon-hashed Merkle accumulator
//! over the Pallas base field, hex serialization of field elements, and
//! construction of the witnesses that the inclusion circuit consumes.
//!
//! The accumulator stores leaves as canonical field-element encodings, keeps
//! the tree padded to a power of two, and extracts inclusion proofs whose
//! path fold provably reproduces the root.  The only unverified step is the
//! Poseidon permutation itself, which is delegated to the `halo2` primitive
//! behind a single trusted wrapper.

pub mod codec;
pub mod field;
pub mod health_service;
pub mod merkle;
pub mod merkle_tree_service;
pub mod tree_service;
pub mod zk_service;
