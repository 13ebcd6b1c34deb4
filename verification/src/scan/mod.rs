//! Scanning memory for values and narrowing down what matched.

pub mod aob;
pub mod buffer;
pub mod candidate;
pub mod engine;
pub mod filter;
pub mod pointer;
