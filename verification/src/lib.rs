//! Constraint-level model of a small account ledger whose state transitions
//! are proven inside a zero-knowledge proof: a fixed-depth Merkle commitment
//! over account records, an account-creation circuit, a balance-transfer
//! circuit with range-checked arithmetic, and a meta-circuit that searches
//! for states violating the global supply-conservation invariant.
//!
//! Everything that decides whether a witness satisfies a circuit is
//! modelled and verified here at the level of witness values: the field
//! arithmetic on canonical representations, the commitment engine, the
//! per-circuit checks and the public-input ordering. The proving backend
//! (gate compilation, polynomial commitments, proof generation) stays
//! outside the library and consumes the same circuits over its own
//! constraint system.

use vstd::prelude::*;

pub mod field;
pub mod hashing;
pub mod merkle;
pub mod builder;
pub mod circuits;

verus! {

/// Depth of the Merkle tree of account slots.
pub const ACC_DEPTH: usize = 8;

/// Number of account slots: 2^ACC_DEPTH.
pub const ACC_NUM: usize = 256;

/// Bit width of the range table used for amounts and balances.
pub const AMOUNT_LOG_LIMIT: usize = 8;

} // verus!
