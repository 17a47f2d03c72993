//! Proof-of-work ticket scheme: random 32-byte secrets are scored
//! deterministically against a fixed context (chain, contract, receiver) by
//! hashing, the highest-scoring secrets are retained in a bounded accumulator
//! until their combined score reaches a target, and verifiers recompute the
//! total from revealed secrets or proofs.

pub mod accumulator;
pub mod codec;
pub mod crypto;
pub mod mixin;
pub mod score;
pub mod u256;
