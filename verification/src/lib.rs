//! A Groth16-style trusted-setup ceremony over a small prime field.
//!
//! The crate reduces a Rank-1 Constraint System to a Quadratic Arithmetic
//! Program evaluated at a secret point, and derives from it the common
//! reference string (proving key and verifying key) of the ceremony.
//! Field elements are plain residues modulo a runtime prime, and elements of
//! the pairing groups are modeled by their discrete logarithm with respect to
//! fixed generators, so every algebraic step is stated and checked exactly.

pub mod domain;
pub mod field;
pub mod kzg;
pub mod qap;
pub mod r1cs;
pub mod sampling;

use vstd::prelude::*;

verus! {

/// The ways the ceremony and its services can fail.
#[derive(Clone, Copy, Debug, PartialEq, Eq, Structural)]
pub enum CeremonyError {
    /// The field does not have enough 2-adic roots of unity for the
    /// evaluation domain the constraint system asks for.
    DomainTooLarge,
    /// Random sampling hit its retry bound without an acceptable element;
    /// practically unreachable with a working source of randomness.
    DegenerateSample,
    /// A residue that the construction must divide by has no multiplicative
    /// inverse. The reduction and the ceremony prove this unreachable over
    /// their prime modulus; it can surface only from the domain service
    /// applied directly to a domain with a composite modulus.
    NonInvertible,
}

} // verus!
