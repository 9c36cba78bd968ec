//! The ways in which a ring or cipher operation can fail.

use vstd::prelude::*;

verus! {

/// Why an operation refused its input.
#[derive(Clone, Copy, Debug, PartialEq, Eq, Structural)]
pub enum CipherError {
    /// The two operands of a multiplication or division have different moduli.
    RingMismatch,
    /// A division needs the inverse of the divisor's leading coefficient
    /// modulo 512, and that coefficient is even.
    NonInvertibleLeadingCoefficient,
    /// The key polynomial is longer than the state by more than one
    /// coefficient, so a round cannot split the state.
    LengthMismatch,
    /// A hexadecimal text is not a whole number of three-digit groups.
    InvalidEncoding,
    /// The requested modulus is not a positive multiple of the current one.
    InvalidModulusExtension,
    /// The inverse affine map met an even coefficient.
    OddnessViolation,
}

} // verus!
