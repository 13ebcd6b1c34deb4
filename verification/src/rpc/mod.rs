//! The daemon's protocol: JSON-RPC 2.0, one object to a line.

pub mod client;
pub mod methods;
pub mod params;
pub mod server;
pub mod types;
