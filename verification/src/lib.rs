//! Modular multiplicative inverses by the extended Euclidean algorithm.
//!
//! [`euclid::extended_euclidean_algorithm`] solves `a*x + b*y = g` over `i32`,
//! and [`inverse::get_inverse`] derives from it the inverse of a number modulo
//! a positive modulus, as a residue in `[0, modulo)`.
//!
//! Every function is verified: the contracts are stated over mathematical
//! integers, and the arithmetic is proved to stay inside `i32` on every input
//! on which a result is returned.

pub mod trunc;
pub mod error;
pub mod euclid;
pub mod inverse;
