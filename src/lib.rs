//! Number-theory toolkit: prime sieves (plain, odd-only, bit-packed and
//! segmented), the pieces of a parallel segmented pipeline (segment layout,
//! scheduling, routing, reordering, record encoding and parsing, write
//! admission) with the laws they obey together, and digit utilities (bases
//! and palindromes, digit scanning, prime chains, random digits).
pub mod prime;
pub mod sieve;
pub mod bits;
pub mod segment;
pub mod layout;
pub mod segmented;
pub mod reorder;
pub mod encode;
pub mod stream;
pub mod admission;
pub mod bases;
pub mod laws;
pub mod random;
pub mod scan;
pub mod chain;
pub mod records;
pub mod scheduler;
