//! Core of a proof-of-equivalence circuit: a 4096-point polynomial in
//! evaluation form over the BLS12-381 scalar field, committed to with an
//! absorbing hash, bound to an external pairing-based commitment through a
//! Fiat-Shamir challenge, and evaluated at that challenge barycentrically.

pub mod limbs;
pub mod bigint;
pub mod field;
pub mod domain;
pub mod blob_polynomial;
pub mod hashing;
pub mod fiat_shamir;
pub mod hex;
pub mod assembly;
pub mod order;
