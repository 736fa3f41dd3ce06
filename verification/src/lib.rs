//! Primality testing and prime factorization of 64-bit numbers by memoized
//! trial division.
//!
//! A [`PrimeDigestor`] answers whether a number is prime and, if it is
//! not, gives its recipe: the prime factors with their multiplicities.
//! It remembers every outcome it has worked out, and counts its work.
//!
//! Zero and one are neither prime nor composite: a check of either is
//! refused with [`DigestError::BelowTwo`]. A product that does not fit in
//! 64 bits is refused with [`DigestError::Overflow`].

pub mod arith;
pub mod decimal;
pub mod digest;
pub mod factors;
pub mod input;
pub mod prime_digestor;
pub mod recipe;

pub use digest::{DigestError, PrimeDigestResult};
pub use input::{Input, N};
pub use prime_digestor::PrimeDigestor;
pub use recipe::{DigestNode, Recipe};
