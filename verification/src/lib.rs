//! Maglev hashing: a consistent hashing scheme that routes keys to a fixed
//! set of nodes through a prime-sized lookup table.
//!
//! Building a table assigns every slot to exactly one node; looking a key up
//! is one hash, one remainder and two array reads. When the node set changes
//! and the table is rebuilt with the same capacity, most keys keep their node.
pub mod bertrand;
pub mod binomial;
pub mod conshash;
pub mod hashing;
pub mod laws;
pub mod maglev;
pub mod permutation;
pub mod primes;
pub mod primorial;
pub mod sieve;
pub mod table;
pub mod valuation;

pub use crate::conshash::ConsistentHasher;
pub use crate::maglev::Maglev;
