//! Prime k-tuple search: the verified core of the sieve, the prime table,
//! the offset search, the pattern parser, the statistics counters and the
//! GPU batch protocol.
pub mod bits;
pub mod primes;
pub mod config;
pub mod constellation;
pub mod gpu;
pub mod offsets;
pub mod pattern_text;
pub mod sieve;
pub mod stats;
pub mod target;
