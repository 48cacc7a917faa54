//! The ways in which a query or a construction can fail.

use vstd::prelude::*;

verus! {

/// Why a carrier query or the construction of a structure gave no answer.
#[derive(Debug, Clone, Copy, PartialEq, Eq, Structural)]
pub enum AlgebraError {
    /// The carrier lacks the identity of its element type.
    MissingIdentity,
    /// The carrier cannot list its elements, so the question is undecidable
    /// for it.
    NotEnumerable,
    /// The carrier does not know how many elements it has.
    CardinalityUnresolved,
    /// The closure of the generators has more elements than the bound allows.
    ClosureTooLarge,
}

/// Why a modular integer could not be made.
#[derive(Debug, Clone, Copy, PartialEq, Eq, Structural)]
pub enum ModularError {
    /// The modulus is outside the range in which the operation cannot overflow:
    /// too large for the width, or too small to have the identity among its
    /// residues.
    ModulusOutOfRange,
    /// The value is not a residue: it is not below the modulus (or, where zero
    /// is no element, it is zero).
    ValueOutOfRange,
    /// The value shares a divisor with the modulus.
    NotCoprime,
    /// The modulus is not a prime.
    ModulusNotPrime,
}

} // verus!
