//! Core of a LAN file-sharing tool: bundle format, chunking, wire headers,
//! compression and encryption of payloads, and the decisions of the
//! sender and receiver state machines.
pub mod bundle;
pub mod compress;
pub mod crypto;
pub mod digest;
pub mod transfer;
pub mod types;
pub mod pipeline;
pub mod transport;
pub mod state;
pub mod cancel;
pub mod text;
pub mod net;
pub mod args;
