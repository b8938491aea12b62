//! A KZG polynomial commitment scheme over the BLS12-381 pairing groups.
//!
//! The crate builds, from a set of points, the unique low-degree polynomial
//! through them (Lagrange interpolation), commits to that polynomial as a
//! single group element, and produces and checks constant-size proofs that a
//! chosen subset of points lies on the committed polynomial.
//!
//! Polynomial arithmetic is carried out over the scalar field of BLS12-381
//! and is verified against a mathematical model: each coefficient is a
//! natural number below the field order, and every operation's contract is
//! stated in modular arithmetic over that model.

pub mod field;
pub mod kzg;
pub mod poly;

pub use field::Fr;
pub use kzg::{Commitment, Kzg, KzgError, Proof, SingleProof};
pub use poly::Poly;
