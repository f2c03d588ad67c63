//! Arithmetic on polynomials over GF(2), multiplicative inverses in GF(2^n) by the Extended
//! Euclidean Algorithm, and the AES S-box built on them.
pub mod algebra;
pub mod polynomial;
pub mod irr_poly;
pub mod subbytes;
pub mod blocks;
pub mod validation;
