//! Heterogeneous treatment-effect estimation with an ensemble of honest
//! causal trees.
//!
//! The engine works on a fixed-point numeric domain: every quantity is an
//! `i64` mantissa scaled by [`num::SCALE`], so that effect estimates, split
//! gains and importance scores are exact integer arithmetic that the verifier
//! can reason about. Callers convert their measurements into [`num::Num`]
//! values at the boundary.

pub mod arith;
pub mod effect;
pub mod errors;
pub mod forest;
pub mod laws;
pub mod linear;
pub mod model;
pub mod num;
pub mod rng;
pub mod tree;
pub mod validation;
pub mod visualization;
