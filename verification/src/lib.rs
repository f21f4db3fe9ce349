//! Computational kernel of a weighted threshold Schnorr signature scheme over
//! secp256k1: participant identifiers, nonce binding factors, the Schnorr
//! challenge, Lagrange coefficients, aggregate nonce commitments and the
//! evaluation of public polynomial commitments.
pub mod algebra;
pub mod compute;
pub mod field;
pub mod hash;
pub mod lagrange;
pub mod laws;
pub mod point;
pub mod scalar;

