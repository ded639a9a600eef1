//! A Sieve of Eratosthenes over odd numbers, with interchangeable flag
//! storage and interchangeable ways of dividing the marking work.

pub mod algorithm;
pub mod flag_data;
pub mod known;
pub mod number;
pub mod partition;
pub mod plan;
pub mod segment;
pub mod sieve;
pub mod worker;
