//! Prover core of a PLONK-style proof system over a width-4 circuit with
//! next-row wiring.
//!
//! The crate is organised as a small polynomial engine over an NTT-friendly
//! prime field, a precomputation resolver for coset LDEs of setup data, a
//! commitment component, and a five-round prover state machine.

pub mod commitment;
pub mod domain;
pub mod polynomial;
pub mod errors;
pub mod field;
pub mod laws;
pub mod precomputations;
pub mod prover;
