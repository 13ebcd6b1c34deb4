//! The terminal interface.

pub mod app;
