//! Proof of History: a sequential SHA-256 chain that encodes the passage of
//! time and anchors event digests to positions in it.
//!
//! [`poh::Poh`] generates the chain, [`poh::verify`] replays a sequence of
//! emitted entries against a known starting digest.

pub mod chain;
pub mod clock;
pub mod hash;
pub mod poh;
pub mod theorems;
pub mod trace;
