//! A memory scanner for Wine and Proton games that never stops its target.
//!
//! - [`process`]: the memory map of a process and which of its regions may be touched, the
//!   search for games, and what the system lets us do.
//! - [`mem`]: reading and writing memory, freezing values, patching code, watching addresses
//!   and disassembling.
//! - [`scan`]: scanning for values, narrowing down what matched, searching for byte patterns and
//!   for pointer chains.
//! - [`rpc`]: the daemon's protocol, from a line of JSON to the method and back.
//! - [`cli`] and [`tui`]: what the command line and the terminal interface show.
//! - [`pid`] and [`elsewhere`]: finding games by their command lines alone, and what is said on
//!   systems that cannot do the work.
//! - [`bytes`], [`number`], [`text`] and [`shared`]: little-endian bytes, floating-point numbers
//!   by their bits, text, and what the modules share.
//!
//! Everything that is asked of a target goes through [`mem::access::MemoryAccess`], whose trace
//! records each request and its outcome. Contracts speak of that trace, so that they say not
//! only what a function returns but what it did to the target: that a value is written only
//! where the memory map, read right before, shows a safe region; that a scan reads nothing but
//! safe regions and misses no match; that a patch can be undone.

pub mod bytes;
pub mod cli;
pub mod elsewhere;
pub mod mem;
pub mod number;
pub mod pid;
pub mod process;
pub mod rpc;
pub mod scan;
pub mod shared;
pub mod text;
pub mod tui;
