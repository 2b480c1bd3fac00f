//! The binary chunk header, the length prefix of handshake messages, and the
//! sender's side of a single-file transfer.
use vstd::prelude::*;
use vstd::bytes::*;
use crate::crypto::sha256;
use crate::transfer::chunk::Chunk;
use crate::types::{new_transfer_id, ControlMessage, FileMeta};

verus! {

/// Size of the binary chunk header.
pub const HDR_SIZE: usize = 56;

/// Header type of a data chunk.
pub const CHUNK_TYPE: u32 = 1;

/// Header type of the end-of-transfer marker.
pub const DONE_TYPE: u32 = 0xFFFF_FFFF;

/// The 56 header bytes, little-endian:
/// type (4) | index (8) | offset (8) | size (4) | hash (32).
pub open spec fn header_bytes(ty: u32, index: u64, offset: u64, size: u32, hash: Seq<u8>) -> Seq<u8> {
    spec_u32_to_le_bytes(ty) + spec_u64_to_le_bytes(index) + spec_u64_to_le_bytes(offset)
        + spec_u32_to_le_bytes(size) + hash
}

/// The fields read back from 56 header bytes.
pub open spec fn header_fields(b: Seq<u8>) -> (u32, u64, u64, u32, Seq<u8>) {
    (
        spec_u32_from_le_bytes(b.subrange(0, 4)),
        spec_u64_from_le_bytes(b.subrange(4, 12)),
        spec_u64_from_le_bytes(b.subrange(12, 20)),
        spec_u32_from_le_bytes(b.subrange(20, 24)),
        b.subrange(24, 56),
    )
}

fn append_bytes(buf: &mut Vec<u8>, bytes: &[u8])
    ensures
        final(buf)@ == old(buf)@ + bytes@,
{
    let ghost start = buf@;
    let mut i: usize = 0;
    while i < bytes.len()
        invariant
            i <= bytes@.len(),
            buf@ == start + bytes@.subrange(0, i as int),
        decreases bytes@.len() - i,
    {
        buf.push(bytes[i]);
        i = i + 1;
        assert(buf@ =~= start + bytes@.subrange(0, i as int));
    }
    assert(bytes@.subrange(0, i as int) =~= bytes@);
}

/// Pack a chunk header.
pub fn pack_header(ty: u32, index: u64, offset: u64, size: u32, hash: &[u8; 32]) -> (buf: [u8; 56])
    ensures
        buf@ == header_bytes(ty, index, offset, size, hash@),
{
    let mut v: Vec<u8> = Vec::new();
    let b = u32_to_le_bytes(ty);
    append_bytes(&mut v, b.as_slice());
    let b = u64_to_le_bytes(index);
    append_bytes(&mut v, b.as_slice());
    let b = u64_to_le_bytes(offset);
    append_bytes(&mut v, b.as_slice());
    let b = u32_to_le_bytes(size);
    append_bytes(&mut v, b.as_slice());
    append_bytes(&mut v, hash.as_slice());
    assert(v@.len() == 56);
    let mut buf = [0u8; 56];
    let mut i: usize = 0;
    while i < 56
        invariant
            i <= 56,
            v@.len() == 56,
            forall|j: int| 0 <= j < i ==> buf@[j] == v@[j],
        decreases 56 - i,
    {
        buf[i] = v[i];
        i = i + 1;
    }
    assert(buf@ =~= v@);
    buf
}

/// Parse a chunk header into (type, index, offset, size, hash).
pub fn parse_header(buf: &[u8; 56]) -> (fields: (u32, u64, u64, u32, [u8; 32]))
    ensures
        (fields.0, fields.1, fields.2, fields.3, fields.4@) == header_fields(buf@),
{
    let s = buf.as_slice();
    let ty = u32_from_le_bytes(vstd::slice::slice_subrange(s, 0, 4));
    let index = u64_from_le_bytes(vstd::slice::slice_subrange(s, 4, 12));
    let offset = u64_from_le_bytes(vstd::slice::slice_subrange(s, 12, 20));
    let size = u32_from_le_bytes(vstd::slice::slice_subrange(s, 20, 24));
    let mut hash = [0u8; 32];
    let mut i: usize = 0;
    while i < 32
        invariant
            i <= 32,
            s@ == buf@,
            s@.len() == 56,
            forall|j: int| 0 <= j < i ==> hash@[j] == s@[24 + j],
        decreases 32 - i,
    {
        hash[i] = s[24 + i];
        i = i + 1;
    }
    assert(hash@ =~= buf@.subrange(24, 56));
    (ty, index, offset, size, hash)
}

/// Reading a packed header gives back every field it was packed from.
pub proof fn lemma_header_roundtrip(ty: u32, index: u64, offset: u64, size: u32, hash: Seq<u8>)
    requires
        hash.len() == 32,
    ensures
        header_fields(header_bytes(ty, index, offset, size, hash)) == (ty, index, offset, size, hash),
{
    lemma_auto_spec_u32_to_from_le_bytes();
    lemma_auto_spec_u64_to_from_le_bytes();
    let b = header_bytes(ty, index, offset, size, hash);
    assert(b.subrange(0, 4) =~= spec_u32_to_le_bytes(ty));
    assert(b.subrange(4, 12) =~= spec_u64_to_le_bytes(index));
    assert(b.subrange(12, 20) =~= spec_u64_to_le_bytes(offset));
    assert(b.subrange(20, 24) =~= spec_u32_to_le_bytes(size));
    assert(b.subrange(24, 56) =~= hash);
}

/// The bytes of a length-prefixed handshake message: the payload length as a
/// little-endian u32 (as the writer's `as u32` cast gives it), then the payload.
pub open spec fn framed(payload: Seq<u8>) -> Seq<u8> {
    spec_u32_to_le_bytes(payload.len() as u32) + payload
}

/// Frame a serialized handshake message with its length prefix.
pub fn frame_message(payload: &[u8]) -> (out: Vec<u8>)
    ensures
        out@ == framed(payload@),
{
    let mut out = u32_to_le_bytes(payload.len() as u32);
    append_bytes(&mut out, payload);
    out
}

/// The payload length announced by a 4-byte length prefix.
pub fn frame_length(prefix: &[u8; 4]) -> (len: u32)
    ensures
        len == spec_u32_from_le_bytes(prefix@),
{
    u32_from_le_bytes(prefix.as_slice())
}

/// The prefix of a framed payload announces the payload's length.
pub proof fn lemma_frame_roundtrip(payload: Seq<u8>)
    requires
        payload.len() <= u32::MAX,
    ensures
        spec_u32_from_le_bytes(framed(payload).subrange(0, 4)) == payload.len(),
        framed(payload).subrange(4, framed(payload).len() as int) == payload,
{
    lemma_auto_spec_u32_to_from_le_bytes();
    assert(framed(payload).subrange(0, 4) =~= spec_u32_to_le_bytes(payload.len() as u32));
    assert(framed(payload).subrange(4, framed(payload).len() as int) =~= payload);
}


/// Thirty-two zero bytes: the hash field of the end marker.
pub open spec fn zero_hash() -> Seq<u8> {
    Seq::new(32, |i: int| 0u8)
}

/// The header of a data chunk as `send_chunk` writes it.
pub open spec fn chunk_header_bytes(index: u64, offset: u64, data: Seq<u8>, hash: Seq<u8>) -> Seq<u8> {
    header_bytes(CHUNK_TYPE, index, offset, data.len() as u32, hash)
}

/// The end-of-transfer marker.
pub open spec fn done_header_bytes() -> Seq<u8> {
    header_bytes(DONE_TYPE, 0, 0, 0, zero_hash())
}

/// The end-of-transfer marker: a header of type `DONE_TYPE` with all other fields zero.
pub fn done_header() -> (h: [u8; 56])
    ensures
        h@ == done_header_bytes(),
{
    let zero = [0u8; 32];
    assert(zero@ =~= zero_hash());
    pack_header(DONE_TYPE, 0, 0, 0, &zero)
}

/// The sending side of a single-file transfer.
///
/// Protocol:
///   1. handshake: TransferRequest / TransferAccept (length-prefixed JSON)
///   2. binary chunks: [56-byte header] [data]
///   3. binary done:   [56-byte header with type = DONE_TYPE]
///
/// The caller performs the I/O; this value decides what is written and
/// counts the data bytes sent.
pub struct FileSender {
    file_meta: FileMeta,
    bytes_sent: u64,
}

impl FileSender {
    /// The description of the file being sent.
    pub closed spec fn meta(self) -> FileMeta {
        self.file_meta
    }

    /// The data bytes sent so far.
    pub closed spec fn sent(self) -> u64 {
        self.bytes_sent
    }

    /// A sender for the file described by `file_meta`.
    pub fn new(file_meta: FileMeta) -> (s: Self)
        ensures
            s.meta() == file_meta,
            s.sent() == 0,
    {
        FileSender { file_meta, bytes_sent: 0 }
    }

    /// The transfer request to send: a fresh transfer id and the file's description.
    pub fn handshake(&self) -> (msg: ControlMessage)
        ensures
            msg matches ControlMessage::TransferRequest { file_meta, .. } && file_meta == self.meta(),
    {
        ControlMessage::TransferRequest {
            transfer_id: new_transfer_id(),
            file_meta: self.file_meta.clone(),
        }
    }

    /// The header to write before `chunk.data`; counts the chunk's bytes as sent.
    pub fn send_chunk(&mut self, chunk: &Chunk) -> (hdr: [u8; 56])
        requires
            old(self).sent() + chunk.data@.len() <= u64::MAX,
        ensures
            hdr@ == chunk_header_bytes(chunk.index, chunk.offset, chunk.data@, chunk.hash@),
            final(self).sent() == old(self).sent() + chunk.data@.len(),
            final(self).meta() == old(self).meta(),
    {
        let hdr = pack_header(CHUNK_TYPE, chunk.index, chunk.offset, chunk.data.len() as u32, &chunk.hash);
        self.bytes_sent = self.bytes_sent + chunk.data.len() as u64;
        hdr
    }

    /// The end-of-transfer marker to write after the last chunk.
    pub fn finish(&self) -> (hdr: [u8; 56])
        ensures
            hdr@ == done_header_bytes(),
    {
        done_header()
    }

    /// The data bytes sent so far.
    pub fn bytes_sent(&self) -> (n: u64)
        ensures
            n == self.sent(),
    {
        self.bytes_sent
    }
}

} // verus!
