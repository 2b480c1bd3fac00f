//! Shared data types.
use vstd::prelude::*;

verus! {

/// A transfer identifier (a UUID); the library only carries it.
#[verifier::external_type_specification]
#[verifier::external_body]
pub struct ExUuid(uuid::Uuid);

/// `Clone` of `uuid::Uuid`, a derived impl on a `Copy` type: the copy is equal.
pub assume_specification[ <uuid::Uuid as std::clone::Clone>::clone ](u: &uuid::Uuid) -> (res:
    uuid::Uuid)
    ensures
        res == *u,
;

/// Identifies a device.
pub type DeviceId = String;

/// Identifies a transfer.
pub type TransferId = uuid::Uuid;

/// `uuid::Uuid::new_v4`: a fresh random identifier. Nothing is promised of its value.
#[verifier::external_body]
pub(crate) fn new_transfer_id() -> TransferId {
    uuid::Uuid::new_v4()
}

/// Runtime configuration of the transport.
#[derive(Debug, Clone, Copy, PartialEq, Eq)]
pub struct AppConfig {
    pub listen_port: u16,
    pub max_streams: u32,
    pub chunk_size: usize,
    pub pipeline_depth: usize,
}

/// The default configuration: port 8877, 8 streams, 4 MiB chunks, depth 4.
pub open spec fn default_app_config() -> AppConfig {
    AppConfig { listen_port: 8877, max_streams: 8, chunk_size: 0x40_0000, pipeline_depth: 4 }
}

impl Default for AppConfig {
    fn default() -> (c: Self)
        ensures
            c == default_app_config(),
    {
        AppConfig { listen_port: 8877, max_streams: 8, chunk_size: 0x40_0000, pipeline_depth: 4 }
    }
}

/// What a receiver learns of a chunk before its data.
#[derive(Debug, Clone, Copy, PartialEq, Eq)]
pub struct ChunkInfo {
    pub index: u64,
    pub offset: u64,
    pub size: usize,
    pub hash: [u8; 32],
}

/// Description of a file (or bundle) offered to a receiver.
#[derive(Debug)]
pub struct FileMeta {
    pub name: String,
    pub size: u64,
    pub chunk_size: usize,
    pub chunk_count: u64,
    pub file_hash: [u8; 32],
    pub compressed: bool,
    pub bundle: bool,
    /// Each chunk is independently compressed (enables streaming).
    /// When false, the entire file was compressed as one blob.
    pub stream: bool,
    /// Data is AES-256-GCM encrypted. The key is derived from a
    /// pre-shared password that is never transmitted.
    pub encrypted: bool,
}

impl Clone for FileMeta {
    fn clone(&self) -> (m: Self)
        ensures
            m == *self,
    {
        FileMeta {
            name: self.name.clone(),
            size: self.size,
            chunk_size: self.chunk_size,
            chunk_count: self.chunk_count,
            file_hash: self.file_hash,
            compressed: self.compressed,
            bundle: self.bundle,
            stream: self.stream,
            encrypted: self.encrypted,
        }
    }
}

/// Progress events of a transfer.
#[derive(Debug, Clone)]
pub enum TransferEvent {
    Progress { id: TransferId, bytes_sent: u64, total_bytes: u64, speed_bps: u64 },
    Completed { id: TransferId },
    Failed { id: TransferId, error: String },
}

/// Handshake messages.
#[derive(Debug, Clone)]
pub enum ControlMessage {
    TransferRequest { transfer_id: TransferId, file_meta: FileMeta },
    TransferAccept { transfer_id: TransferId, received_chunks: Vec<u64> },
    TransferReject { transfer_id: TransferId, reason: String },
    TransferDone { transfer_id: TransferId },
}

} // verus!
