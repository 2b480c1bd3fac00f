//! What a transfer sends and what a receiver makes of it: bundling,
//! compression and encryption on the way out, and their inverses on the way in.
use vstd::prelude::*;
use crate::bundle::{
    bundle_bytes, create_bundle, entry_fits, extract_bundle, files_view, lemma_bundle_roundtrip,
    parse_bundle, BundleError,
};
use crate::compress::{
    compress, compress_always, compressible_len, decoder_refuses, decompress, fits_compressor, lz4_block_compress,
    spec_compress, spec_decompress,
    DecompressFailed,
};
use crate::crypto::{
    blake3_digest, blake3_hash, decrypt, encrypt, sealed, spec_decrypt, CryptoError,
    MAX_PLAINTEXT_LEN,
};
use crate::transfer::batch::BatchMeta;
use crate::transfer::chunk::Chunk;
use crate::transfer::sender::zero_hash;
use crate::types::FileMeta;
use vstd::string::*;

verus! {

/// Why a received payload could not be restored.
#[derive(Debug, Clone, Copy, PartialEq, Eq)]
pub enum ReceiveError {
    /// The payload is encrypted but no key is at hand.
    MissingPassword,
    /// Decryption failed (wrong password or corrupted data).
    Decrypt(CryptoError),
    /// Decompression failed.
    Decompress(DecompressFailed),
    /// The bundle could not be read.
    Bundle(BundleError),
}

/// A restored payload: the files of a bundle, or a single file's bytes.
pub enum Received {
    Files(Vec<(String, Vec<u8>)>),
    Single(Vec<u8>),
}

/// A restored payload as plain values.
pub enum Payload {
    Files(Seq<(Seq<char>, Seq<u8>)>),
    Single(Seq<u8>),
}

impl View for Received {
    type V = Payload;

    open spec fn view(&self) -> Payload {
        match self {
            Received::Files(fs) => Payload::Files(files_view(fs@)),
            Received::Single(d) => Payload::Single(d@),
        }
    }
}

/// A key as plain bytes.
pub open spec fn key_view(key: Option<[u8; 32]>) -> Option<Seq<u8>> {
    match key {
        Some(k) => Some(k@),
        None => None,
    }
}

/// Number of chunks of `chunk_size` needed for `len` bytes.
pub open spec fn chunk_count_for(len: int, chunk_size: int) -> int {
    (len + chunk_size - 1) / chunk_size
}

/// First step of restoring: decryption when the sender encrypted.
pub open spec fn spec_unseal(encrypted: bool, data: Seq<u8>, key: Option<Seq<u8>>) -> Result<Seq<u8>, ReceiveError> {
    if encrypted {
        match key {
            None => Err(ReceiveError::MissingPassword),
            Some(k) => match spec_decrypt(k, data) {
                Ok(p) => Ok(p),
                Err(e) => Err(ReceiveError::Decrypt(e)),
            },
        }
    } else {
        Ok(data)
    }
}

/// Second step: decompression when the sender compressed.
pub open spec fn spec_inflate(compressed: bool, data: Seq<u8>) -> Result<Seq<u8>, ReceiveError> {
    if compressed {
        match spec_decompress(data) {
            Ok(p) => Ok(p),
            Err(e) => Err(ReceiveError::Decompress(e)),
        }
    } else {
        Ok(data)
    }
}

/// What a receiver restores from a whole payload: decrypt (if encrypted),
/// then decompress (if compressed), then unpack (if a bundle).
pub open spec fn spec_open_payload(
    encrypted: bool,
    compressed: bool,
    bundle: bool,
    data: Seq<u8>,
    key: Option<Seq<u8>>,
) -> Result<Payload, ReceiveError> {
    match spec_unseal(encrypted, data, key) {
        Err(e) => Err(e),
        Ok(d1) => match spec_inflate(compressed, d1) {
            Err(e) => Err(e),
            Ok(d2) => if bundle {
                match parse_bundle(d2) {
                    Ok(fs) => Ok(Payload::Files(fs)),
                    Err(e) => Err(ReceiveError::Bundle(e)),
                }
            } else {
                Ok(Payload::Single(d2))
            },
        },
    }
}

/// What a receiver restores from one chunk of a streamed file: decrypt it
/// when the file is encrypted, then decompress it when the file is
/// compressed (each chunk was sealed and compressed on its own).
pub open spec fn spec_open_stream_chunk(
    encrypted: bool,
    compressed: bool,
    data: Seq<u8>,
    key: Option<Seq<u8>>,
) -> Result<Seq<u8>, ReceiveError> {
    match spec_unseal(encrypted, data, key) {
        Err(e) => Err(e),
        Ok(d) => spec_inflate(compressed, d),
    }
}

fn unseal(encrypted: bool, data: Vec<u8>, key: Option<[u8; 32]>) -> (res: Result<Vec<u8>, ReceiveError>)
    ensures
        match res {
            Ok(d) => spec_unseal(encrypted, data@, key_view(key)) == Ok::<_, ReceiveError>(d@),
            Err(e) => spec_unseal(encrypted, data@, key_view(key)) == Err::<Seq<u8>, _>(e),
        },
{
    if encrypted {
        match key {
            None => Err(ReceiveError::MissingPassword),
            Some(k) => match decrypt(&k, data.as_slice()) {
                Ok(p) => Ok(p),
                Err(e) => Err(ReceiveError::Decrypt(e)),
            },
        }
    } else {
        Ok(data)
    }
}

fn inflate(compressed: bool, data: Vec<u8>) -> (res: Result<Vec<u8>, ReceiveError>)
    ensures
        match res {
            Ok(d) => spec_inflate(compressed, data@) == Ok::<_, ReceiveError>(d@),
            Err(e) => spec_inflate(compressed, data@) == Err::<Seq<u8>, _>(e),
        },
{
    if compressed {
        match decompress(data.as_slice()) {
            Ok(p) => Ok(p),
            Err(e) => Err(ReceiveError::Decompress(e)),
        }
    } else {
        Ok(data)
    }
}

/// Restore a payload received whole: decrypt it if `meta.encrypted` (with
/// `key`), decompress it if `meta.compressed`, and unpack it if `meta.bundle`.
pub fn open_payload(meta: &FileMeta, data: Vec<u8>, key: Option<[u8; 32]>) -> (res: Result<Received, ReceiveError>)
    ensures
        match res {
            Ok(r) => spec_open_payload(meta.encrypted, meta.compressed, meta.bundle, data@, key_view(key))
                == Ok::<_, ReceiveError>(r@),
            Err(e) => spec_open_payload(meta.encrypted, meta.compressed, meta.bundle, data@, key_view(key))
                == Err::<Payload, _>(e),
        },
{
    let d1 = match unseal(meta.encrypted, data, key) {
        Ok(d) => d,
        Err(e) => {
            return Err(e);
        },
    };
    let d2 = match inflate(meta.compressed, d1) {
        Ok(d) => d,
        Err(e) => {
            return Err(e);
        },
    };
    if meta.bundle {
        match extract_bundle(d2.as_slice()) {
            Ok(fs) => Ok(Received::Files(fs)),
            Err(e) => Err(ReceiveError::Bundle(e)),
        }
    } else {
        Ok(Received::Single(d2))
    }
}

/// Restore one chunk of a streamed file described by `meta`: decrypt it
/// when the file is encrypted (with `key`), then decompress it when the
/// file is compressed.
pub fn open_stream_chunk(meta: &FileMeta, data: Vec<u8>, key: Option<[u8; 32]>) -> (res: Result<Vec<u8>, ReceiveError>)
    ensures
        match res {
            Ok(d) => spec_open_stream_chunk(meta.encrypted, meta.compressed, data@, key_view(key)) == Ok::<
                _,
                ReceiveError,
            >(d@),
            Err(e) => spec_open_stream_chunk(meta.encrypted, meta.compressed, data@, key_view(key))
                == Err::<Seq<u8>, _>(e),
        },
{
    let d = match unseal(meta.encrypted, data, key) {
        Ok(d) => d,
        Err(e) => {
            return Err(e);
        },
    };
    inflate(meta.compressed, d)
}

/// Whether a receiver restores the file chunk by chunk as it arrives: for
/// single files whose chunks were compressed and sealed one by one.
pub fn is_streaming(meta: &FileMeta) -> (b: bool)
    ensures
        b == (meta.stream && !meta.bundle),
{
    meta.stream && !meta.bundle
}

/// Whether a payload received whole is the file itself, with nothing to
/// undo: neither compressed, nor a bundle, nor encrypted. Restoring such a
/// payload gives it back unchanged.
pub fn payload_is_plain(meta: &FileMeta) -> (b: bool)
    ensures
        b == (!meta.compressed && !meta.bundle && !meta.encrypted),
        b ==> forall|data: Seq<u8>, key: Option<Seq<u8>>|
            spec_open_payload(meta.encrypted, meta.compressed, meta.bundle, data, key)
                == Ok::<_, ReceiveError>(Payload::Single(data)),
{
    !meta.compressed && !meta.bundle && !meta.encrypted
}

/// What a receiver does once the chunks of a file have stopped arriving
/// (the end marker came, or the user cancelled).
#[derive(Debug, Clone, Copy, PartialEq, Eq, Structural)]
pub enum AfterReceive {
    /// A streamed file is already restored in place: record its digest and
    /// finish it as received in full.
    FinishStream,
    /// The user cancelled: finish the transfer as failed, with the bytes
    /// that arrived.
    FailCancelled,
    /// The payload is the file itself: move it into place and finish.
    MovePlain,
    /// The payload has to be opened with `open_payload` before it is written.
    Restore,
}

/// The receiver's decision after the last chunk: a streamed file is
/// finished as it stands (a cancel only stopped the chunks from coming);
/// otherwise a cancel fails the transfer, and what arrived is then moved
/// into place when it is plain or restored first when it is not.
pub fn after_receive(meta: &FileMeta, cancelled: bool) -> (a: AfterReceive)
    ensures
        a == if meta.stream && !meta.bundle {
            AfterReceive::FinishStream
        } else if cancelled {
            AfterReceive::FailCancelled
        } else if !meta.compressed && !meta.bundle && !meta.encrypted {
            AfterReceive::MovePlain
        } else {
            AfterReceive::Restore
        },
{
    if is_streaming(meta) {
        AfterReceive::FinishStream
    } else if cancelled {
        AfterReceive::FailCancelled
    } else if payload_is_plain(meta) {
        AfterReceive::MovePlain
    } else {
        AfterReceive::Restore
    }
}

fn chunk_count(len: u64, chunk_size: usize) -> (n: u64)
    requires
        chunk_size > 0,
    ensures
        n == chunk_count_for(len as int, chunk_size as int),
{
    let cs = chunk_size as u64;
    let q = len / cs;
    let r = len % cs;
    assert(chunk_count_for(len as int, cs as int) == q + if r == 0 { 0int } else { 1int }
        && (r != 0 ==> q < len)) by (nonlinear_arith)
        requires
            cs > 0,
            q == len / cs,
            r == len % cs,
    {
        assert(len == q * cs + r);
        assert(q <= q * cs);
    }
    if r == 0 {
        q
    } else {
        q + 1
    }
}

fn seal_if(data: Vec<u8>, key: Option<[u8; 32]>) -> (out: Vec<u8>)
    requires
        key is Some ==> data@.len() <= MAX_PLAINTEXT_LEN,
    ensures
        key is None ==> out@ == data@,
        key matches Some(k) ==> {
            &&& out@ == sealed(k@, out@.subrange(0, 12), data@)
            &&& out@.len() == data@.len() + 28
            &&& spec_decrypt(k@, out@) == Ok::<_, CryptoError>(data@)
        },
{
    match key {
        Some(k) => encrypt(&k, data.as_slice()),
        None => data,
    }
}

/// Protect one file of a batch: encrypt it when a key is given.
pub fn protect_file_data(data: Vec<u8>, key: Option<[u8; 32]>) -> (out: Vec<u8>)
    requires
        key is Some ==> data@.len() <= MAX_PLAINTEXT_LEN,
    ensures
        key is None ==> out@ == data@,
        key matches Some(k) ==> {
            &&& out@ == sealed(k@, out@.subrange(0, 12), data@)
            &&& spec_decrypt(k@, out@) == Ok::<_, CryptoError>(data@)
        },
{
    seal_if(data, key)
}

/// Pack a directory's files for sending as one transfer: bundle them,
/// compress the bundle when that shrinks it, then encrypt when a key is
/// given. The description records the bundle's size, whether it was
/// compressed, and the number of chunks the payload takes. `None` when the
/// bundle is too large for the LZ4 compressor (see `compressible_len`), or
/// when a key is given and the bytes to encrypt exceed what AES-GCM accepts.
///
/// The receiver's `open_payload` gives back exactly these files whenever
/// their count and paths fit the format's length fields (and, when the
/// bundle was compressed, its size fits LZ4's size prefix).
pub fn prepare_bundle_transfer(
    entries: &[(String, Vec<u8>)],
    root_name: &str,
    key: Option<[u8; 32]>,
    chunk_size: usize,
) -> (res: Option<(FileMeta, Vec<u8>)>)
    requires
        chunk_size > 0,
    ensures
        ({
            let b = bundle_bytes(files_view(entries@));
            let c = spec_compress(b);
            let is_c = c.len() < b.len();
            let plain = if is_c {
                c
            } else {
                b
            };
            &&& res is None <==> (!compressible_len(b.len()) || (key is Some && plain.len()
                > MAX_PLAINTEXT_LEN))
            &&& res matches Some((meta, payload)) ==> {
                &&& meta.name@ == root_name@
                &&& meta.size == b.len()
                &&& meta.chunk_size == chunk_size
                &&& meta.chunk_count == chunk_count_for(payload@.len() as int, chunk_size as int)
                &&& meta.file_hash@ == zero_hash()
                &&& meta.compressed == is_c
                &&& meta.bundle
                &&& !meta.stream
                &&& meta.encrypted == key is Some
                &&& key is None ==> payload@ == plain
                &&& key matches Some(k) ==> payload@ == sealed(k@, payload@.subrange(0, 12), plain)
                &&& ((files_view(entries@).len() <= u32::MAX && (forall|i: int|
                    0 <= i < files_view(entries@).len() ==> entry_fits(
                        #[trigger] files_view(entries@)[i],
                    )) && (is_c ==> b.len() <= u32::MAX && !decoder_refuses(c))) ==> spec_open_payload(
                    meta.encrypted,
                    meta.compressed,
                    meta.bundle,
                    payload@,
                    key_view(key),
                ) == Ok::<_, ReceiveError>(Payload::Files(files_view(entries@))))
            }
        }),
{
    let bundle = create_bundle(entries);
    let bundle_size = bundle.len() as u64;
    if !fits_compressor(bundle.len()) {
        return None;
    }
    let compressed = compress(bundle.as_slice());
    let is_compressed = compressed.len() < bundle.len();
    let plain = if is_compressed {
        compressed
    } else {
        bundle
    };
    if key.is_some() && plain.len() as u64 > MAX_PLAINTEXT_LEN {
        return None;
    }
    let payload = seal_if(plain, key);
    let encrypted = key.is_some();
    let count = chunk_count(payload.len() as u64, chunk_size);
    let meta = FileMeta {
        name: String::from_str(root_name),
        size: bundle_size,
        chunk_size,
        chunk_count: count,
        file_hash: [0u8; 32],
        compressed: is_compressed,
        bundle: true,
        stream: false,
        encrypted,
    };
    proof {
        assert(meta.file_hash@ =~= zero_hash());
        let fv = files_view(entries@);
        if fv.len() <= u32::MAX && (forall|i: int| 0 <= i < fv.len() ==> entry_fits(#[trigger] fv[i])) {
            lemma_bundle_roundtrip(fv);
        }
    }
    Some((meta, payload))
}

/// Prepare a single file that is sent whole: compressed when asked for and
/// when that shrinks it. The description records the uncompressed size,
/// whether the payload is compressed, and the number of chunks it takes.
/// The receiver's `open_payload` gives back the file.
pub fn prepare_single_transfer(name: &str, data: &[u8], compress_it: bool, chunk_size: usize) -> (res: (FileMeta, Vec<u8>))
    requires
        chunk_size > 0,
        compress_it ==> compressible_len(data@.len()),
    ensures
        ({
            let sent = if compress_it {
                spec_compress(data@)
            } else {
                data@
            };
            let (meta, payload) = res;
            &&& payload@ == sent
            &&& meta.name@ == name@
            &&& meta.size == data@.len()
            &&& meta.chunk_size == chunk_size
            &&& meta.chunk_count == chunk_count_for(sent.len() as int, chunk_size as int)
            &&& meta.file_hash@ == zero_hash()
            &&& meta.compressed == (compress_it && spec_compress(data@).len() < data@.len())
            &&& !meta.bundle
            &&& !meta.stream
            &&& !meta.encrypted
            &&& (meta.compressed ==> data@.len() <= u32::MAX && !decoder_refuses(payload@)) ==> spec_open_payload(
                meta.encrypted,
                meta.compressed,
                meta.bundle,
                payload@,
                None,
            ) == Ok::<_, ReceiveError>(Payload::Single(data@))
        }),
{
    let (send_data, is_compressed) = if compress_it {
        let c = compress(data);
        let shrunk = c.len() < data.len();
        (c, shrunk)
    } else {
        (vstd::slice::slice_to_vec(data), false)
    };
    let count = chunk_count(send_data.len() as u64, chunk_size);
    let meta = FileMeta {
        name: String::from_str(name),
        size: data.len() as u64,
        chunk_size,
        chunk_count: count,
        file_hash: [0u8; 32],
        compressed: is_compressed,
        bundle: false,
        stream: false,
        encrypted: false,
    };
    assert(meta.file_hash@ =~= zero_hash());
    (meta, send_data)
}

/// The description of a file that is streamed chunk by chunk from disk:
/// each chunk compressed on its own when `compressed`, encrypted on its own
/// when `encrypted`; the chunk count is estimated from the file size.
pub fn stream_file_meta(name: &str, size: u64, compressed: bool, encrypted: bool, chunk_size: usize) -> (meta: FileMeta)
    requires
        chunk_size > 0,
    ensures
        meta.name@ == name@,
        meta.size == size,
        meta.chunk_size == chunk_size,
        meta.chunk_count == chunk_count_for(size as int, chunk_size as int),
        meta.file_hash@ == zero_hash(),
        meta.compressed == compressed,
        !meta.bundle,
        meta.stream,
        meta.encrypted == encrypted,
{
    let count = chunk_count(size, chunk_size);
    let meta = FileMeta {
        name: String::from_str(name),
        size,
        chunk_size,
        chunk_count: count,
        file_hash: [0u8; 32],
        compressed,
        bundle: false,
        stream: true,
        encrypted,
    };
    assert(meta.file_hash@ =~= zero_hash());
    meta
}

/// Turn a chunk read from disk into the chunk that goes on the wire:
/// compressed on its own (always a valid LZ4 block) when `compress_it`,
/// then encrypted when a key is given, hashed with BLAKE3. Index and
/// offset stay those of the data as read. The receiver's
/// `open_stream_chunk` restores the bytes as read. `None` when a key is
/// given and the bytes to encrypt exceed what AES-GCM accepts.
pub fn prepare_stream_chunk(chunk: Chunk, compress_it: bool, key: Option<[u8; 32]>) -> (out: Option<Chunk>)
    requires
        compress_it ==> compressible_len(chunk.data@.len()),
    ensures
        ({
            let body = if compress_it {
                lz4_block_compress(chunk.data@)
            } else {
                chunk.data@
            };
            &&& out is None <==> (key is Some && body.len() > MAX_PLAINTEXT_LEN)
            &&& out matches Some(out) ==> {
                &&& out.index == chunk.index
                &&& out.offset == chunk.offset
                &&& out.hash == blake3_hash(out.data@)
                &&& key is None ==> out.data@ == body
                &&& key matches Some(k) ==> out.data@ == sealed(k@, out.data@.subrange(0, 12), body)
                    &&& (compress_it ==> chunk.data@.len() <= u32::MAX && !decoder_refuses(
                        lz4_block_compress(chunk.data@),
                    )) ==> spec_open_stream_chunk(
                    key is Some,
                    compress_it,
                    out.data@,
                    key_view(key),
                ) == Ok::<_, ReceiveError>(chunk.data@)
            }
        }),
{
    let body = if compress_it {
        compress_always(chunk.data.as_slice())
    } else {
        chunk.data
    };
    if key.is_some() && body.len() as u64 > MAX_PLAINTEXT_LEN {
        return None;
    }
    let data = seal_if(body, key);
    let hash = blake3_digest(data.as_slice());
    Some(Chunk { index: chunk.index, offset: chunk.offset, data, hash })
}

/// The total of `sizes`.
pub open spec fn total_size(sizes: Seq<u64>) -> int
    decreases sizes.len(),
{
    if sizes.len() == 0 {
        0
    } else {
        total_size(sizes.drop_last()) + sizes.last()
    }
}

/// The announcement of a batch of files with the given sizes: the number of
/// files (as a u32, as the writer's cast gives it) and their total size.
pub fn batch_meta(sizes: &[u64], root_name: &str) -> (m: BatchMeta)
    requires
        total_size(sizes@) <= u64::MAX,
    ensures
        m.total_files == sizes@.len() as u32,
        m.total_size == total_size(sizes@),
        m.root_name@ == root_name@,
{
    let mut total: u64 = 0;
    let mut i: usize = 0;
    while i < sizes.len()
        invariant
            i <= sizes@.len(),
            total == total_size(sizes@.take(i as int)),
            total_size(sizes@) <= u64::MAX,
        decreases sizes@.len() - i,
    {
        proof {
            assert(sizes@.take(i + 1).drop_last() =~= sizes@.take(i as int));
            lemma_total_size_prefix(sizes@, i + 1);
        }
        total = total + sizes[i];
        i = i + 1;
    }
    assert(sizes@.take(i as int) =~= sizes@);
    BatchMeta { total_files: sizes.len() as u32, total_size: total, root_name: String::from_str(root_name) }
}

proof fn lemma_total_size_prefix(sizes: Seq<u64>, n: int)
    requires
        0 <= n <= sizes.len(),
    ensures
        total_size(sizes.take(n)) <= total_size(sizes),
    decreases sizes.len(),
{
    if n < sizes.len() {
        assert(sizes.drop_last().take(n) =~= sizes.take(n));
        lemma_total_size_prefix(sizes.drop_last(), n);
    } else {
        assert(sizes.take(n) =~= sizes);
    }
}

} // verus!
