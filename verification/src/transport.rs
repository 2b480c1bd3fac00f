//! Transport settings shared by the endpoints of a node.
pub mod config;
