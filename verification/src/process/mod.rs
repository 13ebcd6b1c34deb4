//! The target process: its memory map, the search for it, and what the system lets us do.

pub mod maps;
pub mod pid;
pub mod platform;
