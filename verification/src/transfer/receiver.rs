//! The receiving side of a single-file transfer.
use vstd::prelude::*;
use crate::transfer::sender::{
    chunk_header_bytes, done_header_bytes, header_fields, lemma_header_roundtrip, zero_hash, CHUNK_TYPE,
    DONE_TYPE,
};
use crate::crypto::{blake3_digest, blake3_hash, hashes_equal, sha256, sha256_digest};
use crate::types::{new_transfer_id, ChunkInfo, ControlMessage, FileMeta};

verus! {

/// Protocol violations seen by a receiver.
#[derive(Debug, Clone, Copy, PartialEq, Eq)]
pub enum ProtocolError {
    /// The peer sent a message other than the one expected at this point.
    UnexpectedMessage,
    /// A chunk header carries a type that is neither a chunk nor the end marker.
    UnknownChunkType(u32),
    /// The stream ends inside a chunk's data.
    Truncated,
    /// The data of the chunk with this index does not match the hash in its header.
    HashMismatch(u64),
    /// A chunk header announces more data than a chunk may carry.
    ChunkTooLarge(u32),
}

/// The most data one chunk may carry: 8 MiB.
pub const MAX_CHUNK_DATA: u32 = 8_388_608;

/// How a receiver reads header bytes `h`: `Ok(None)` for the end marker,
/// `Ok(Some(info))` for a data chunk whose fields are those of the header,
/// `ChunkTooLarge` for a data chunk announcing more than `MAX_CHUNK_DATA`
/// bytes, `UnknownChunkType` for any other type.
pub open spec fn header_read_as(h: Seq<u8>, res: Result<Option<ChunkInfo>, ProtocolError>) -> bool {
    let f = header_fields(h);
    match res {
        Ok(None) => f.0 == DONE_TYPE,
        Ok(Some(info)) => {
            &&& f.0 == CHUNK_TYPE
            &&& f.3 <= MAX_CHUNK_DATA
            &&& info.index == f.1
            &&& info.offset == f.2
            &&& info.size == f.3
            &&& info.hash@ == f.4
        },
        Err(e) => if f.0 == CHUNK_TYPE {
            f.3 > MAX_CHUNK_DATA && e == ProtocolError::ChunkTooLarge(f.3)
        } else {
            f.0 != DONE_TYPE && e == ProtocolError::UnknownChunkType(f.0)
        },
    }
}

/// What a receiver reads is what a sender wrote: the header of a data chunk
/// reads as that chunk's index, offset, size and hash, and the end marker
/// reads as the end of the transfer.
pub proof fn lemma_receiver_reads_sender_headers(
    index: u64,
    offset: u64,
    data: Seq<u8>,
    hash: Seq<u8>,
    res: Result<Option<ChunkInfo>, ProtocolError>,
    end: Result<Option<ChunkInfo>, ProtocolError>,
)
    requires
        hash.len() == 32,
        data.len() <= MAX_CHUNK_DATA,
        header_read_as(chunk_header_bytes(index, offset, data, hash), res),
        header_read_as(done_header_bytes(), end),
    ensures
        res matches Ok(Some(info)) && info.index == index && info.offset == offset && info.size
            == data.len() && info.hash@ == hash,
        end == Ok::<Option<ChunkInfo>, ProtocolError>(None),
{
    lemma_header_roundtrip(CHUNK_TYPE, index, offset, data.len() as u32, hash);
    lemma_header_roundtrip(DONE_TYPE, 0, 0, 0, zero_hash());
}

/// Read a chunk header: `Ok(None)` for the end marker, `Ok(Some(info))` for a
/// data chunk (its data of `info.size` bytes follows), an error for any other type.
pub fn classify_header(header: &[u8; 56]) -> (res: Result<Option<ChunkInfo>, ProtocolError>)
    ensures
        header_read_as(header@, res),
{
    let (ty, index, offset, size, hash) = crate::transfer::sender::parse_header(header);
    if ty == DONE_TYPE {
        Ok(None)
    } else if ty == CHUNK_TYPE {
        if size > MAX_CHUNK_DATA {
            return Err(ProtocolError::ChunkTooLarge(size));
        }
        Ok(Some(ChunkInfo { index, offset, size: size as usize, hash }))
    } else {
        Err(ProtocolError::UnknownChunkType(ty))
    }
}

/// Whether `data` matches `hash` for a file described by `meta`: chunks of
/// a streamed file carry the BLAKE3 of what was sent, other chunks (and
/// chunks arriving before any description) the SHA-256 of their data.
pub open spec fn chunk_hash_ok(meta: Option<FileMeta>, hash: Seq<u8>, data: Seq<u8>) -> bool {
    match meta {
        Some(m) => if m.stream && !m.bundle {
            blake3_hash(data)@ == hash
        } else {
            sha256(data)@ == hash
        },
        None => sha256(data)@ == hash,
    }
}

/// What a receiver makes of the bytes read after a chunk header that reads
/// as `info`: they must be as many as announced and match the hash.
pub open spec fn spec_accept_data(meta: Option<FileMeta>, info: ChunkInfo, data: Seq<u8>) -> Result<
    Seq<u8>,
    ProtocolError,
> {
    if data.len() != info.size {
        Err(ProtocolError::Truncated)
    } else if !chunk_hash_ok(meta, info.hash@, data) {
        Err(ProtocolError::HashMismatch(info.index))
    } else {
        Ok(data)
    }
}

/// Whether `data` matches `hash` for a file described by `meta`.
pub fn chunk_intact(meta: &Option<FileMeta>, hash: &[u8; 32], data: &[u8]) -> (ok: bool)
    ensures
        ok == chunk_hash_ok(*meta, hash@, data@),
{
    let streamed = match meta {
        Some(m) => m.stream && !m.bundle,
        None => false,
    };
    let computed = if streamed {
        blake3_digest(data)
    } else {
        sha256_digest(data)
    };
    hashes_equal(&computed, hash)
}

/// A chunk a sender wrote is taken by the receiver as written: its header
/// reads as the chunk's index, offset, size and hash, and its data, when it
/// matches the hash the way the file's description says, is accepted as is.
pub proof fn lemma_receiver_takes_sender_chunk(
    meta: Option<FileMeta>,
    index: u64,
    offset: u64,
    data: Seq<u8>,
    hash: Seq<u8>,
    info: ChunkInfo,
)
    requires
        hash.len() == 32,
        data.len() <= MAX_CHUNK_DATA,
        header_read_as(chunk_header_bytes(index, offset, data, hash), Ok(Some(info))),
        chunk_hash_ok(meta, hash, data),
    ensures
        info.index == index && info.offset == offset && info.size == data.len() && info.hash@ == hash,
        spec_accept_data(meta, info, data) == Ok::<_, ProtocolError>(data),
{
    lemma_header_roundtrip(CHUNK_TYPE, index, offset, data.len() as u32, hash);
}

/// The receiving side of a single-file transfer. The caller performs the
/// I/O; this value answers the handshake, reads chunk headers and counts
/// the data bytes received.
pub struct FileReceiver {
    file_meta: Option<FileMeta>,
    bytes_received: u64,
}

impl FileReceiver {
    /// The description of the file being received, once the request has arrived.
    pub closed spec fn meta(self) -> Option<FileMeta> {
        self.file_meta
    }

    /// The data bytes received so far.
    pub closed spec fn received(self) -> u64 {
        self.bytes_received
    }

    /// A receiver that has not seen a request yet.
    pub fn new() -> (r: Self)
        ensures
            r.meta() is None,
            r.received() == 0,
    {
        FileReceiver { file_meta: None, bytes_received: 0 }
    }

    /// Answer the first message of a transfer. A `TransferRequest` is
    /// accepted (its file description is kept) with a `TransferAccept` under
    /// a fresh id and no chunks already received; anything else is refused.
    pub fn handshake(&mut self, msg: ControlMessage) -> (res: Result<ControlMessage, ProtocolError>)
        ensures
            final(self).received() == old(self).received(),
            match msg {
                ControlMessage::TransferRequest { file_meta, .. } => {
                    &&& final(self).meta() == Some(file_meta)
                    &&& res matches Ok(ControlMessage::TransferAccept { received_chunks, .. })
                        && received_chunks@.len() == 0
                },
                _ => {
                    &&& final(self).meta() == old(self).meta()
                    &&& res == Err::<ControlMessage, _>(ProtocolError::UnexpectedMessage)
                },
            },
    {
        match msg {
            ControlMessage::TransferRequest { transfer_id: _, file_meta } => {
                self.file_meta = Some(file_meta);
                Ok(ControlMessage::TransferAccept { transfer_id: new_transfer_id(), received_chunks: Vec::new() })
            },
            _ => Err(ProtocolError::UnexpectedMessage),
        }
    }

    /// Read the header of the next chunk: `None` when the transfer is done.
    pub fn recv_chunk(&self, header: &[u8; 56]) -> (res: Result<Option<ChunkInfo>, ProtocolError>)
        ensures
            header_read_as(header@, res),
    {
        classify_header(header)
    }

    /// Take the data read after a chunk header that read as `info`: it is
    /// accepted, and counted, when it has the announced size and matches the
    /// hash (see `chunk_hash_ok`); otherwise the chunk is refused.
    pub fn accept_data(&mut self, info: &ChunkInfo, data: Vec<u8>) -> (res: Result<Vec<u8>, ProtocolError>)
        requires
            old(self).received() + data@.len() <= u64::MAX,
        ensures
            final(self).meta() == old(self).meta(),
            match res {
                Ok(d) => spec_accept_data(old(self).meta(), *info, data@) == Ok::<_, ProtocolError>(d@)
                    && final(self).received() == old(self).received() + data@.len(),
                Err(e) => spec_accept_data(old(self).meta(), *info, data@) == Err::<Seq<u8>, _>(e)
                    && final(self).received() == old(self).received(),
            },
    {
        if data.len() != info.size {
            return Err(ProtocolError::Truncated);
        }
        if !chunk_intact(&self.file_meta, &info.hash, data.as_slice()) {
            return Err(ProtocolError::HashMismatch(info.index));
        }
        self.bytes_received = self.bytes_received + data.len() as u64;
        Ok(data)
    }

    /// The description of the file being received, once the request has arrived.
    pub fn file_meta(&self) -> (m: &Option<FileMeta>)
        ensures
            *m == self.meta(),
    {
        &self.file_meta
    }

    /// The data bytes received so far.
    pub fn bytes_received(&self) -> (n: u64)
        ensures
            n == self.received(),
    {
        self.bytes_received
    }
}

} // verus!
