//! Reading, writing, holding and patching the memory of a target process.

pub mod access;
pub mod disassemble;
pub mod freeze;
pub mod hex;
pub mod patch;
pub mod watch;
pub mod write;
