//! Chunking, wire headers and the sender and receiver state machines.
pub mod batch;
pub mod chunk;
pub mod receiver;
pub mod resume;
pub mod sender;
