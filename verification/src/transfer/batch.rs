//! Sending a directory file by file over one connection.
use vstd::prelude::*;
use crate::compress::{
    compress, compressible_len, decoder_refuses, decompress, spec_compress, spec_decompress, DecompressFailed,
};
use crate::crypto::{hashes_equal, sha256, sha256_digest};
use crate::transfer::chunk::{split_chunks, ChunkReader};
use crate::transfer::sender::{
    chunk_header_bytes, done_header, done_header_bytes, header_bytes, header_fields,
    lemma_header_roundtrip, pack_header, zero_hash, CHUNK_TYPE, DONE_TYPE,
};
use crate::transfer::receiver::{ProtocolError, MAX_CHUNK_DATA};
use vstd::string::*;

verus! {

/// What a batch announces before its files.
#[derive(Debug)]
pub struct BatchMeta {
    pub total_files: u32,
    pub total_size: u64,
    pub root_name: String,
}

impl Clone for BatchMeta {
    fn clone(&self) -> (m: Self)
        ensures
            m == *self,
    {
        BatchMeta { total_files: self.total_files, total_size: self.total_size, root_name: self.root_name.clone() }
    }
}

/// What precedes each file of a batch.
#[derive(Debug)]
pub struct FileEntry {
    pub relative_path: String,
    pub size: u64,
    pub compressed: bool,
}

impl Clone for FileEntry {
    fn clone(&self) -> (e: Self)
        ensures
            e == *self,
    {
        FileEntry { relative_path: self.relative_path.clone(), size: self.size, compressed: self.compressed }
    }
}

/// The receiver's acknowledgement.
#[derive(Debug, Clone, Copy, PartialEq, Eq)]
pub struct Ack {
    pub ok: bool,
}

/// Marks the end of a batch.
#[derive(Debug, Clone, Copy, PartialEq, Eq)]
pub struct BatchDone;

/// The binary frames of `data` cut into chunks of `chunk_size`, numbered
/// from `index` and placed from `offset` on: for each chunk its header, then its bytes.
pub open spec fn chunk_frames(data: Seq<u8>, chunk_size: nat, index: u64, offset: u64) -> Seq<u8>
    decreases data.len(),
{
    if chunk_size == 0 || data.len() == 0 {
        Seq::empty()
    } else {
        let piece = if data.len() <= chunk_size {
            data
        } else {
            data.take(chunk_size as int)
        };
        chunk_header_bytes(index, offset, piece, sha256(piece)@) + piece + chunk_frames(
            data.skip(piece.len() as int),
            chunk_size,
            (index + 1) as u64,
            (offset + piece.len()) as u64,
        )
    }
}

/// The binary part of one file of a batch: its chunk frames, then the end marker.
pub open spec fn file_body(data: Seq<u8>, chunk_size: nat) -> Seq<u8> {
    chunk_frames(data, chunk_size, 0, 0) + done_header_bytes()
}

/// How a receiver reads the binary body of one file from `stream`: headers
/// are read in turn (as `classify_header` reads them); a data chunk may
/// announce at most `MAX_CHUNK_DATA` bytes, and its bytes are collected once they match the SHA-256 in its header (a mismatch is
/// an error); the end marker ends the file, and so does a stream that ends
/// where a header should begin. The result is the collected data and the
/// number of bytes consumed.
pub open spec fn read_file_body(stream: Seq<u8>) -> Result<(Seq<u8>, int), ProtocolError>
    decreases stream.len(),
{
    if stream.len() < 56 {
        Ok((Seq::empty(), stream.len() as int))
    } else {
        let f = header_fields(stream.subrange(0, 56));
        if f.0 == DONE_TYPE {
            Ok((Seq::empty(), 56))
        } else if f.0 == CHUNK_TYPE {
            let size = f.3 as int;
            if f.3 > MAX_CHUNK_DATA {
                Err(ProtocolError::ChunkTooLarge(f.3))
            } else if stream.len() < 56 + size {
                Err(ProtocolError::Truncated)
            } else if sha256(stream.subrange(56, 56 + size))@ != f.4 {
                Err(ProtocolError::HashMismatch(f.1))
            } else {
                match read_file_body(stream.skip(56 + size)) {
                    Ok((rest, used)) => Ok((stream.subrange(56, 56 + size) + rest, 56 + size + used)),
                    Err(e) => Err(e),
                }
            }
        } else {
            Err(ProtocolError::UnknownChunkType(f.0))
        }
    }
}

proof fn lemma_read_frames(data: Seq<u8>, chunk_size: nat, index: u64, offset: u64, rest: Seq<u8>)
    requires
        0 < chunk_size <= MAX_CHUNK_DATA,
    ensures
        read_file_body(chunk_frames(data, chunk_size, index, offset) + done_header_bytes() + rest)
            == Ok::<_, ProtocolError>(
            (data, chunk_frames(data, chunk_size, index, offset).len() + 56int),
        ),
{
    let frames = chunk_frames(data, chunk_size, index, offset);
    let end = done_header_bytes() + rest;
    vstd::bytes::lemma_auto_spec_u32_to_from_le_bytes();
    vstd::bytes::lemma_auto_spec_u64_to_from_le_bytes();
    lemma_header_roundtrip(0xFFFF_FFFF, 0, 0, 0, zero_hash());
    assert(done_header_bytes().len() == 56);
    assert(end.subrange(0, 56) =~= done_header_bytes());
    assert(read_file_body(end) == Ok::<_, ProtocolError>((Seq::<u8>::empty(), 56int)));
    lemma_read_after_frames(data, chunk_size, index, offset, end);
    assert(frames + done_header_bytes() + rest =~= frames + end);
    assert(data + Seq::<u8>::empty() =~= data);
}

/// What a receiver reads of a file's body is exactly the data that was cut
/// into it, whatever follows the body on the stream.
pub proof fn lemma_file_body_roundtrip(data: Seq<u8>, chunk_size: nat, rest: Seq<u8>)
    requires
        0 < chunk_size <= MAX_CHUNK_DATA,
    ensures
        read_file_body(file_body(data, chunk_size) + rest) == Ok::<_, ProtocolError>(
            (data, file_body(data, chunk_size).len() as int),
        ),
{
    lemma_read_frames(data, chunk_size, 0, 0, rest);
    vstd::bytes::lemma_auto_spec_u32_to_from_le_bytes();
    vstd::bytes::lemma_auto_spec_u64_to_from_le_bytes();
    assert(done_header_bytes().len() == 56);
    assert(file_body(data, chunk_size) + rest =~= chunk_frames(data, chunk_size, 0, 0)
        + done_header_bytes() + rest);
}

/// `r` with `prefix` in front of the data read and `used` more bytes consumed.
pub open spec fn prepend_read(prefix: Seq<u8>, used: int, r: Result<(Seq<u8>, int), ProtocolError>) -> Result<
    (Seq<u8>, int),
    ProtocolError,
> {
    match r {
        Ok((d, u)) => Ok((prefix + d, used + u)),
        Err(e) => Err(e),
    }
}

/// Read the binary body of one file (its chunk frames and end marker), as
/// `read_file_body` describes: the data of the chunks, each checked against
/// the SHA-256 in its header.
pub fn read_file_frames(body: &[u8]) -> (res: Result<Vec<u8>, ProtocolError>)
    ensures
        match res {
            Ok(d) => read_file_body(body@) matches Ok((d2, _)) && d@ == d2,
            Err(e) => read_file_body(body@) == Err::<(Seq<u8>, int), _>(e),
        },
{
    let mut out: Vec<u8> = Vec::new();
    let mut pos: usize = 0;
    let n = body.len();
    proof {
        assert(body@.skip(0) =~= body@);
        assert(Seq::<u8>::empty() + Seq::<u8>::empty() =~= Seq::<u8>::empty());
        match read_file_body(body@) {
            Ok((d, u)) => {
                assert(Seq::<u8>::empty() + d =~= d);
            },
            Err(_) => {},
        }
    }
    loop
        invariant
            n == body@.len(),
            pos <= n,
            read_file_body(body@) == prepend_read(out@, pos as int, read_file_body(body@.skip(pos as int))),
        decreases n - pos,
    {
        let ghost rest = body@.skip(pos as int);
        if n - pos < 56 {
            proof {
                assert(out@ + Seq::<u8>::empty() =~= out@);
            }
            return Ok(out);
        }
        let mut hdr = [0u8; 56];
        let mut k: usize = 0;
        while k < 56
            invariant
                n == body@.len(),
                pos + 56 <= n,
                k <= 56,
                forall|j: int| 0 <= j < k ==> hdr@[j] == body@[pos + j],
            decreases 56 - k,
        {
            hdr[k] = body[pos + k];
            k = k + 1;
        }
        proof {
            assert(hdr@ =~= rest.subrange(0, 56));
        }
        let (ty, index, _offset, size, hash) = crate::transfer::sender::parse_header(&hdr);
        if ty == DONE_TYPE {
            proof {
                assert(out@ + Seq::<u8>::empty() =~= out@);
            }
            return Ok(out);
        } else if ty == CHUNK_TYPE {
            if size > MAX_CHUNK_DATA {
                return Err(ProtocolError::ChunkTooLarge(size));
            }
            let size = size as usize;
            if n - pos - 56 < size {
                return Err(ProtocolError::Truncated);
            }
            let piece = vstd::slice::slice_subrange(body, pos + 56, pos + 56 + size);
            proof {
                assert(piece@ =~= rest.subrange(56, 56 + size));
            }
            let digest = sha256_digest(piece);
            if !hashes_equal(&digest, &hash) {
                return Err(ProtocolError::HashMismatch(index));
            }
            let ghost old_out = out@;
            append_bytes(&mut out, piece);
            proof {
                assert(rest.skip(56 + size) =~= body@.skip(pos + 56 + size));
                let r = read_file_body(body@.skip(pos + 56 + size));
                match r {
                    Ok((d, u)) => {
                        assert(old_out + (piece@ + d) =~= out@ + d);
                    },
                    Err(_) => {},
                }
            }
            pos = pos + 56 + size;
        } else {
            return Err(ProtocolError::UnknownChunkType(ty));
        }
    }
}

/// Errors in receiving one file of a batch.
#[derive(Debug, Clone, Copy, PartialEq, Eq)]
pub enum BatchError {
    /// The chunk frames are malformed or a chunk fails its hash check.
    Protocol(ProtocolError),
    /// The file was announced as compressed but does not decompress.
    Decompress(DecompressFailed),
}

/// What a receiver makes of a file announced as `compressed` whose body
/// (chunk frames and end marker) is `body`: the data read from the frames,
/// decompressed when announced so.
pub open spec fn spec_recv_file(compressed: bool, body: Seq<u8>) -> Result<Seq<u8>, BatchError> {
    match read_file_body(body) {
        Err(e) => Err(BatchError::Protocol(e)),
        Ok((d, _)) => if compressed {
            match spec_decompress(d) {
                Ok(x) => Ok(x),
                Err(e) => Err(BatchError::Decompress(e)),
            }
        } else {
            Ok(d)
        },
    }
}

/// Reading past intact chunk frames collects their data and goes on with
/// what follows them.
proof fn lemma_read_after_frames(data: Seq<u8>, chunk_size: nat, index: u64, offset: u64, s: Seq<u8>)
    requires
        0 < chunk_size <= MAX_CHUNK_DATA,
    ensures
        read_file_body(chunk_frames(data, chunk_size, index, offset) + s) == match read_file_body(s) {
            Ok((d, used)) => Ok::<_, ProtocolError>(
                (data + d, chunk_frames(data, chunk_size, index, offset).len() + used),
            ),
            Err(e) => Err(e),
        },
    decreases data.len(),
{
    let frames = chunk_frames(data, chunk_size, index, offset);
    let stream = frames + s;
    vstd::bytes::lemma_auto_spec_u32_to_from_le_bytes();
    vstd::bytes::lemma_auto_spec_u64_to_from_le_bytes();
    if data.len() == 0 {
        assert(frames == Seq::<u8>::empty());
        assert(stream =~= s);
        match read_file_body(s) {
            Ok((d, _)) => {
                assert(data + d =~= d);
            },
            Err(_) => {},
        }
    } else {
        let piece = if data.len() <= chunk_size {
            data
        } else {
            data.take(chunk_size as int)
        };
        let tail = data.skip(piece.len() as int);
        let hash = sha256(piece)@;
        let hdr = chunk_header_bytes(index, offset, piece, hash);
        let next = chunk_frames(tail, chunk_size, (index + 1) as u64, (offset + piece.len()) as u64);
        assert(frames == hdr + piece + next);
        lemma_header_roundtrip(1, index, offset, piece.len() as u32, hash);
        assert(hdr.len() == 56);
        assert(stream.subrange(0, 56) =~= hdr);
        let size = piece.len() as int;
        assert(stream.subrange(56, 56 + size) =~= piece);
        assert(stream.skip(56 + size) =~= next + s);
        lemma_read_after_frames(tail, chunk_size, (index + 1) as u64, (offset + piece.len()) as u64, s);
        assert(header_fields(stream.subrange(0, 56)).0 == CHUNK_TYPE);
        assert(header_fields(stream.subrange(0, 56)).3 as int == size);
        match read_file_body(s) {
            Ok((d, _)) => {
                assert(piece + (tail + d) =~= data + d);
            },
            Err(_) => {},
        }
    }
}

/// A corrupted chunk is never taken: however many intact chunks come before
/// it, a chunk whose data does not match the SHA-256 in its header makes
/// the file's reception fail, naming that chunk's index.
pub proof fn lemma_corrupt_chunk_rejected(
    compressed: bool,
    good: Seq<u8>,
    chunk_size: nat,
    index: u64,
    offset: u64,
    bad: Seq<u8>,
    hash: Seq<u8>,
    rest: Seq<u8>,
)
    requires
        0 < chunk_size <= MAX_CHUNK_DATA,
        hash.len() == 32,
        bad.len() <= MAX_CHUNK_DATA,
        sha256(bad)@ != hash,
    ensures
        spec_recv_file(
            compressed,
            chunk_frames(good, chunk_size, 0, 0) + chunk_header_bytes(index, offset, bad, hash) + bad + rest,
        ) == Err::<Seq<u8>, _>(BatchError::Protocol(ProtocolError::HashMismatch(index))),
{
    let hdr = chunk_header_bytes(index, offset, bad, hash);
    let s = hdr + bad + rest;
    vstd::bytes::lemma_auto_spec_u32_to_from_le_bytes();
    vstd::bytes::lemma_auto_spec_u64_to_from_le_bytes();
    lemma_header_roundtrip(1, index, offset, bad.len() as u32, hash);
    assert(hdr.len() == 56);
    assert(s.subrange(0, 56) =~= hdr);
    assert(s.subrange(56, 56 + bad.len() as int) =~= bad);
    assert(read_file_body(s) == Err::<(Seq<u8>, int), _>(ProtocolError::HashMismatch(index)));
    lemma_read_after_frames(good, chunk_size, 0, 0, s);
    assert(chunk_frames(good, chunk_size, 0, 0) + hdr + bad + rest =~= chunk_frames(good, chunk_size, 0, 0) + s);
}

/// A file sent by a batch sender comes back from a batch receiver: reading
/// the body the sender wrote (whatever follows it on the stream) gives the
/// file's data, whether it was sent compressed or not, and the receiver
/// counts exactly the payload bytes that were on the wire.
pub proof fn lemma_batch_file_roundtrip(data: Seq<u8>, sent: Seq<u8>, compressed: bool, chunk_size: nat, rest: Seq<u8>)
    requires
        0 < chunk_size <= MAX_CHUNK_DATA,
        compressed ==> spec_decompress(sent) == Ok::<_, DecompressFailed>(data),
        !compressed ==> sent == data,
    ensures
        spec_recv_file(compressed, file_body(sent, chunk_size) + rest) == Ok::<_, BatchError>(data),
        read_file_body(file_body(sent, chunk_size) + rest) matches Ok((counted, _)) && counted == sent,
{
    lemma_file_body_roundtrip(sent, chunk_size, rest);
}

proof fn lemma_read_len(stream: Seq<u8>)
    ensures
        read_file_body(stream) matches Ok((d, _)) ==> d.len() <= stream.len(),
    decreases stream.len(),
{
    if stream.len() >= 56 {
        let f = header_fields(stream.subrange(0, 56));
        let size = f.3 as int;
        if f.0 != DONE_TYPE && f.0 == CHUNK_TYPE && stream.len() >= 56 + size {
            lemma_read_len(stream.skip(56 + size));
        }
    }
}

/// What one file of a batch becomes: the entry to announce it, and the
/// binary body to write after the receiver's acknowledgement.
pub struct BatchFile {
    pub entry: FileEntry,
    pub body: Vec<u8>,
    /// The data bytes the body carries in its chunk frames.
    pub payload_len: u64,
}

fn append_bytes(buf: &mut Vec<u8>, bytes: &[u8])
    ensures
        final(buf)@ == old(buf)@ + bytes@,
{
    let ghost start = buf@;
    let mut i: usize = 0;
    while i < bytes.len()
        invariant
            i <= bytes@.len(),
            buf@ == start + bytes@.subrange(0, i as int),
        decreases bytes@.len() - i,
    {
        buf.push(bytes[i]);
        i = i + 1;
        assert(buf@ =~= start + bytes@.subrange(0, i as int));
    }
    assert(bytes@.subrange(0, i as int) =~= bytes@);
}

/// The chunk frames of `data` and the number of data bytes they carry.
fn encode_chunks(data: &[u8], chunk_size: usize) -> (res: (Vec<u8>, u64))
    ensures
        res.0@ == chunk_frames(data@, chunk_size as nat, 0, 0),
        res.1 == if chunk_size == 0 { 0 } else { data@.len() },
{
    let mut body: Vec<u8> = Vec::new();
    let mut reader = ChunkReader::new(data, chunk_size);
    let _n = data.len();
    let mut sent: u64 = 0;
    loop
        invariant
            sent == reader.next_offset(),
            reader.spec_chunk_size() == chunk_size,
            !reader.is_done(),
            body@ + chunk_frames(
                reader.unread(),
                chunk_size as nat,
                reader.next_index(),
                reader.next_offset(),
            ) == chunk_frames(data@, chunk_size as nat, 0, 0),
            reader.next_offset() + reader.unread().len() == data@.len(),
            chunk_size == 0 ==> reader.next_offset() == 0,
        decreases reader.unread().len(),
    {
        let ghost before = reader.unread();
        let ghost idx = reader.next_index();
        let ghost off = reader.next_offset();
        match reader.next_chunk() {
            None => {
                assert(chunk_frames(before, chunk_size as nat, idx, off) == Seq::<u8>::empty());
                assert(body@ + Seq::<u8>::empty() =~= body@);
                return (body, sent);
            },
            Some(c) => {
                let hdr = pack_header(CHUNK_TYPE, c.index, c.offset, c.data.len() as u32, &c.hash);
                let ghost old_body = body@;
                append_bytes(&mut body, hdr.as_slice());
                append_bytes(&mut body, c.data.as_slice());
                sent = sent + c.data.len() as u64;
                proof {
                    let piece = c.data@;
                    assert(chunk_frames(before, chunk_size as nat, idx, off) == chunk_header_bytes(
                        idx,
                        off,
                        piece,
                        sha256(piece)@,
                    ) + piece + chunk_frames(
                        before.skip(piece.len() as int),
                        chunk_size as nat,
                        (idx + 1) as u64,
                        (off + piece.len()) as u64,
                    ));
                    assert(body@ =~= old_body + chunk_header_bytes(idx, off, piece, sha256(piece)@)
                        + piece);
                }
            },
        }
    }
}

/// The sending side of a batch. The caller performs the I/O; this value
/// decides what each file becomes on the wire and keeps the statistics.
pub struct BatchSender {
    meta: BatchMeta,
    chunk_size: usize,
    compress: bool,
    files_sent: u32,
    bytes_sent: u64,
}

impl BatchSender {
    /// The chunk size files are cut with.
    pub closed spec fn spec_chunk_size(self) -> usize {
        self.chunk_size
    }

    /// Whether files are compressed before sending.
    pub closed spec fn compresses(self) -> bool {
        self.compress
    }

    /// Files sent so far.
    pub closed spec fn files(self) -> u32 {
        self.files_sent
    }

    /// Data bytes sent so far (after compression).
    pub closed spec fn sent(self) -> u64 {
        self.bytes_sent
    }

    /// The batch's announcement.
    pub closed spec fn spec_meta(self) -> BatchMeta {
        self.meta
    }

    /// A sender for the batch `meta`, cutting files into chunks of `chunk_size`; no compression.
    pub fn new(meta: BatchMeta, chunk_size: usize) -> (s: Self)
        ensures
            s.spec_meta() == meta,
            s.spec_chunk_size() == chunk_size,
            !s.compresses(),
            s.files() == 0,
            s.sent() == 0,
    {
        BatchSender { meta, chunk_size, compress: false, files_sent: 0, bytes_sent: 0 }
    }

    /// The same sender, compressing files or not.
    pub fn with_compression(self, enabled: bool) -> (s: Self)
        ensures
            s.compresses() == enabled,
            s.spec_meta() == self.spec_meta(),
            s.spec_chunk_size() == self.spec_chunk_size(),
            s.files() == self.files(),
            s.sent() == self.sent(),
    {
        BatchSender { compress: enabled, ..self }
    }

    /// Whether files are compressed.
    pub fn is_compressing(&self) -> (b: bool)
        ensures
            b == self.compresses(),
    {
        self.compress
    }

    /// The batch's announcement, sent in the handshake.
    pub fn meta(&self) -> (m: &BatchMeta)
        ensures
            *m == self.spec_meta(),
    {
        &self.meta
    }

    /// What file `relative_path` with contents `data` becomes: it is
    /// compressed when compression is on and that shrinks it; the entry
    /// records the uncompressed size and whether it was compressed; the body
    /// holds the chunk frames of what is sent and the end marker. Nothing is
    /// counted yet: the caller reports the file with `file_sent` once its
    /// body has been written.
    pub fn send_file(&mut self, relative_path: &str, data: &[u8]) -> (f: BatchFile)
        requires
            old(self).compresses() ==> compressible_len(data@.len()),
        ensures
            ({
                let sent_data = if old(self).compresses() {
                    spec_compress(data@)
                } else {
                    data@
                };
                &&& f.entry.relative_path@ == relative_path@
                &&& f.entry.size == data@.len()
                &&& f.entry.compressed == (sent_data.len() < data@.len())
                &&& (f.entry.compressed && data@.len() <= u32::MAX && !decoder_refuses(sent_data))
                    ==> spec_decompress(sent_data) == Ok::<_, DecompressFailed>(data@)
                &&& !f.entry.compressed ==> sent_data == data@
                &&& f.body@ == file_body(sent_data, old(self).spec_chunk_size() as nat)
                &&& f.payload_len == if old(self).spec_chunk_size() == 0 {
                    0
                } else {
                    sent_data.len()
                }
            }),
            final(self).sent() == old(self).sent(),
            final(self).files() == old(self).files(),
            final(self).compresses() == old(self).compresses(),
            final(self).spec_chunk_size() == old(self).spec_chunk_size(),
            final(self).spec_meta() == old(self).spec_meta(),
    {
        let send_data = if self.compress {
            compress(data)
        } else {
            vstd::slice::slice_to_vec(data)
        };
        let compressed = send_data.len() < data.len();
        let entry = FileEntry {
            relative_path: String::from_str(relative_path),
            size: data.len() as u64,
            compressed,
        };
        let (mut body, n) = encode_chunks(send_data.as_slice(), self.chunk_size);
        let done = done_header();
        append_bytes(&mut body, done.as_slice());
        BatchFile { entry, body, payload_len: n }
    }

    /// Count `file` as sent, once its body has been written in full: one
    /// more file, and its payload bytes.
    pub fn file_sent(&mut self, file: &BatchFile)
        requires
            old(self).files() < u32::MAX,
            old(self).sent() + file.payload_len <= u64::MAX,
        ensures
            final(self).files() == old(self).files() + 1,
            final(self).sent() == old(self).sent() + file.payload_len,
            final(self).compresses() == old(self).compresses(),
            final(self).spec_chunk_size() == old(self).spec_chunk_size(),
            final(self).spec_meta() == old(self).spec_meta(),
    {
        self.bytes_sent = self.bytes_sent + file.payload_len;
        self.files_sent = self.files_sent + 1;
    }

    /// (files sent, data bytes sent).
    pub fn stats(&self) -> (s: (u32, u64))
        ensures
            s == (self.files(), self.sent()),
    {
        (self.files_sent, self.bytes_sent)
    }
}

/// The receiving side of a batch. The caller performs the I/O; this value
/// keeps the batch's announcement and the statistics, and restores each file.
pub struct BatchReceiver {
    pub meta: Option<BatchMeta>,
    pub bytes_received: u64,
}

impl BatchReceiver {
    /// A receiver that has not seen the announcement yet.
    pub fn new() -> (r: Self)
        ensures
            r.meta is None,
            r.bytes_received == 0,
    {
        BatchReceiver { meta: None, bytes_received: 0 }
    }

    /// Keep the batch's announcement and acknowledge it.
    pub fn handshake(&mut self, meta: BatchMeta) -> (ack: Ack)
        ensures
            ack.ok,
            final(self).meta == Some(meta),
            final(self).bytes_received == old(self).bytes_received,
    {
        self.meta = Some(meta);
        Ack { ok: true }
    }

    /// Restore a file from its body (chunk frames and end marker) as read
    /// off the connection: the chunks are checked against their hashes and
    /// their data collected and counted, then decompressed when the entry
    /// says the file was compressed.
    pub fn recv_file(&mut self, entry: FileEntry, body: &[u8]) -> (res: Result<(String, Vec<u8>), BatchError>)
        requires
            old(self).bytes_received + body@.len() <= u64::MAX,
        ensures
            final(self).meta == old(self).meta,
            match read_file_body(body@) {
                Ok((d, _)) => final(self).bytes_received == old(self).bytes_received + d.len(),
                Err(_) => final(self).bytes_received == old(self).bytes_received,
            },
            match res {
                Ok((path, d)) => path@ == entry.relative_path@ && spec_recv_file(entry.compressed, body@)
                    == Ok::<_, BatchError>(d@),
                Err(e) => spec_recv_file(entry.compressed, body@) == Err::<Seq<u8>, _>(e),
            },
    {
        let data = match read_file_frames(body) {
            Ok(d) => d,
            Err(e) => {
                return Err(BatchError::Protocol(e));
            },
        };
        proof {
            lemma_read_len(body@);
        }
        self.bytes_received = self.bytes_received + data.len() as u64;
        if entry.compressed {
            match decompress(data.as_slice()) {
                Ok(d) => Ok((entry.relative_path, d)),
                Err(e) => Err(BatchError::Decompress(e)),
            }
        } else {
            Ok((entry.relative_path, data))
        }
    }

    /// The data bytes received so far.
    pub fn bytes_received(&self) -> (n: u64)
        ensures
            n == self.bytes_received,
    {
        self.bytes_received
    }
}

} // verus!
