//! Prime-finding utilities over unsigned 64-bit integers: an integer
//! ceiling square root, a trial-division primality test bounded by it,
//! and a search for the smallest prime at or above a given value.

pub mod primes;
pub mod sqrt;

pub use primes::is_prime;
pub use primes::next_prime;
pub use sqrt::usqrt;
