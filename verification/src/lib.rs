//! Verified models of two arithmetic-circuit gadgets: a Merkle-path
//! membership chip and a bounded-integer overflow chip.
//!
//! Both gadgets are stated over a prime field of residues modulo `p`.
//! The library models the witness table a constraint-system backend
//! would hold, the polynomial gate identities each chip registers, and
//! the exhaustive constraint-satisfaction check that decides whether a
//! witness is accepted.

use vstd::prelude::*;

pub mod field;
pub mod merkle;
pub mod overflow;

verus! {

/// Structural errors raised while building a witness.  Logical errors
/// (a wrong path, an out-of-range limb) never surface here: they make
/// the finished witness fail the constraint-satisfaction check instead.
#[derive(Clone, Copy, Debug, PartialEq, Eq, Structural)]
pub enum ChipError {
    /// A level above the leaf was assigned without the digest cell of
    /// the previous level.
    MissingPredecessor,
    /// A cell handle points outside the witness it is used with.
    InvalidCell,
    /// The value does not fit in the configured number of limbs.
    DecompositionOverflow,
    /// The configuration parameters are rejected.
    InvalidConfiguration,
}

} // verus!
