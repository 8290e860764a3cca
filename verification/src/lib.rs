//! Number-theoretic primitives for RSA key generation over arbitrary-precision
//! integers: block splitting and rejoining, modular exponentiation, the
//! extended Euclidean algorithm, a Fermat primality check, a small-prime
//! exponent selector and a random prime-candidate generator.

pub mod bignum;
pub mod model;
pub mod proofs;
pub mod laws;
pub mod maths;
