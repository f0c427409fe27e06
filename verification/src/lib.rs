//! Prime numbers by trial division against the primes found so far: an
//! oracle that decides one number, generators that extend a list of known
//! primes up to a bound, and a generator that does so chunk by chunk and can
//! be stopped and resumed between chunks.
//!
//! The numbers are `u32`. A list of known primes is a `Vec<u32>` in
//! ascending order; what the generators ask of it and make of it is stated
//! in `known_primes`, over the primes as `primality` defines them.

pub mod calculator;
pub mod generator;
mod integer;
pub mod known_primes;
mod parallel;
pub mod primality;
