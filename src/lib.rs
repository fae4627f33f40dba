//! Prime enumeration with a wheel-factorised sieve of Eratosthenes over a
//! packed bit array.
pub mod bit_vec;
pub mod wheel;
pub mod survivors;
pub mod erat;
