//! LZ4 compression of payloads (block format with the uncompressed size
//! prepended as a little-endian u32).
use vstd::prelude::*;
use vstd::bytes::*;

verus! {

/// The bytes `lz4_flex::compress_prepend_size` produces for `data`.
pub uninterp spec fn lz4_block_compress(data: Seq<u8>) -> Seq<u8>;

/// What `lz4_flex::decompress_size_prepended` produces for `data`; `None` where it fails.
pub uninterp spec fn lz4_block_decompress(data: Seq<u8>) -> Option<Seq<u8>>;

/// The error type of `lz4_flex`'s decompression.
#[verifier::external_type_specification]
#[verifier::external_body]
pub struct ExLz4DecompressError(lz4_flex::block::DecompressError);

/// Input lengths the LZ4 compressor handles: it sizes its output buffer as
/// `len * 110 / 100 + 24` bytes, computed in `usize` (the product overflows
/// beyond that), and a buffer may not exceed `isize::MAX` bytes.
pub open spec fn compressible_len(len: nat) -> bool {
    len * 110 <= usize::MAX && len * 110 / 100 + 24 <= isize::MAX
}

/// Whether the LZ4 compressor handles an input of `len` bytes.
pub fn fits_compressor(len: usize) -> (b: bool)
    ensures
        b == compressible_len(len as nat),
{
    match len.checked_mul(110) {
        None => false,
        Some(m) => m / 100 <= (isize::MAX as usize) - 24,
    }
}

/// `lz4_flex::compress_prepend_size`. The contract claims that the result is a
/// function of the input alone, and, as the crate documents for its block
/// round trip, that decompressing it gives the input back when the input's
/// length fits the u32 size prefix. Longer inputs than `compressible_len`
/// admits make the crate's buffer size arithmetic overflow, so they are left
/// out.
#[verifier::external_body]
fn lz4_compress_prepend_size(data: &[u8]) -> (out: Vec<u8>)
    requires
        compressible_len(data@.len()),
    ensures
        out@ == lz4_block_compress(data@),
        data@.len() <= u32::MAX ==> lz4_block_decompress(out@) == Some(data@),
{
    lz4_flex::compress_prepend_size(data)
}

/// The length of a run of 0xFF bytes from which the LZ4 decoder's length
/// arithmetic can overflow. Its `read_integer` adds 255 per 0xFF byte into a
/// `u32`, and 16,843,009 such bytes add up to exactly `u32::MAX`. Where
/// `usize` has 32 bits the decoder also adds these counts to positions in
/// `usize`, and runs are kept below 2^23 bytes so that those sums stay below
/// 2^32.
pub open spec fn ff_run_limit() -> nat {
    if usize::BITS == 64 {
        16_843_009
    } else {
        8_388_608
    }
}

/// `data` holds `ff_run_limit()` consecutive 0xFF bytes somewhere.
pub open spec fn has_long_ff_run(data: Seq<u8>) -> bool {
    exists|i: int|
        0 <= i && i + ff_run_limit() <= data.len() && #[trigger] data.subrange(i, i + ff_run_limit())
            == Seq::new(ff_run_limit(), |j: int| 0xFFu8)
}

/// Where `usize` has 32 bits, a size prefix of 2^31 or more makes the
/// decoder ask for a buffer larger than `isize::MAX`, which panics.
pub open spec fn prefix_too_large(data: Seq<u8>) -> bool {
    usize::BITS == 32 && data.len() >= 4 && spec_u32_from_le_bytes(data.subrange(0, 4)) >= 0x8000_0000
}

/// Inputs on which the LZ4 decoder could panic, and which `decompress` refuses.
pub open spec fn decoder_refuses(data: Seq<u8>) -> bool {
    has_long_ff_run(data) || prefix_too_large(data)
}

/// `lz4_flex::decompress_size_prepended`. The contract claims that success
/// and the decompressed bytes are a function of the input alone; inputs
/// shorter than the 4-byte size prefix fail (the crate's source shows it).
/// The decoder's length counter is a `u32` incremented with `+=`, which
/// panics on overflow where overflow checks are on; that needs a long run
/// of 0xFF bytes, which `requires` leaves out (see `ff_run_limit`), as it
/// leaves out size prefixes that cannot be allocated on 32-bit targets. The
/// crate allocates the size the prefix announces (at most 4 GiB) before
/// decoding; an allocation the machine cannot serve aborts the process,
/// which no clause here rules out.
#[verifier::external_body]
fn lz4_decompress_size_prepended(data: &[u8]) -> (out: Result<
    Vec<u8>,
    lz4_flex::block::DecompressError,
>)
    requires
        !decoder_refuses(data@),
    ensures
        out matches Ok(v) ==> lz4_block_decompress(data@) == Some(v@),
        out is Err ==> lz4_block_decompress(data@) is None,
        data@.len() < 4 ==> out is Err,
{
    lz4_flex::decompress_size_prepended(data)
}

/// Decompression failed: the data is not a valid size-prefixed LZ4 block.
#[derive(Debug, Clone, Copy, PartialEq, Eq)]
pub struct DecompressFailed;

/// What `compress` returns: the LZ4 block when it is shorter than the input,
/// otherwise the input itself.
pub open spec fn spec_compress(data: Seq<u8>) -> Seq<u8> {
    if lz4_block_compress(data).len() < data.len() {
        lz4_block_compress(data)
    } else {
        data
    }
}

/// What `decompress` returns: data on which the LZ4 decoder could panic
/// (see `decoder_refuses`) is refused, other data is what the decoder makes
/// of it.
pub open spec fn spec_decompress(data: Seq<u8>) -> Result<Seq<u8>, DecompressFailed> {
    if decoder_refuses(data) {
        Err(DecompressFailed)
    } else {
        match lz4_block_decompress(data) {
            Some(d) => Ok(d),
            None => Err(DecompressFailed),
        }
    }
}

fn run_limit() -> (n: usize)
    ensures
        n == ff_run_limit(),
{
    if usize::BITS == 64 {
        16_843_009
    } else {
        8_388_608
    }
}

/// Whether `data` holds a run of `ff_run_limit()` consecutive 0xFF bytes.
pub fn find_long_ff_run(data: &[u8]) -> (b: bool)
    ensures
        b == has_long_ff_run(data@),
{
    let limit = run_limit();
    let ghost ffs = Seq::new(ff_run_limit(), |j: int| 0xFFu8);
    let mut run: usize = 0;
    let mut i: usize = 0;
    while i < data.len()
        invariant
            limit == ff_run_limit(),
            i <= data@.len(),
            run <= i,
            run < limit,
            ffs == Seq::new(ff_run_limit(), |j: int| 0xFFu8),
            forall|j: int| i - run <= j < i ==> data@[j] == 0xFFu8,
            run < i ==> data@[i - run - 1] != 0xFFu8,
            forall|k: int|
                0 <= k && k + limit <= i ==> #[trigger] data@.subrange(k, k + limit) != ffs,
        decreases data@.len() - i,
    {
        if data[i] == 0xFF {
            run = run + 1;
        } else {
            run = 0;
        }
        i = i + 1;
        if run == limit {
            proof {
                let k = i - limit;
                assert(data@.subrange(k, k + limit) =~= ffs);
            }
            return true;
        }
        proof {
            assert forall|k: int| 0 <= k && k + limit <= i implies #[trigger] data@.subrange(k, k + limit) != ffs by {
                if k + limit == i {
                    let p = i - run - 1;
                    assert(k <= p);
                    assert(data@.subrange(k, k + limit)[p - k] != ffs[p - k]);
                }
            }
        }
    }
    false
}

fn refused_by_decoder(data: &[u8]) -> (b: bool)
    ensures
        b == decoder_refuses(data@),
{
    if find_long_ff_run(data) {
        return true;
    }
    if usize::BITS == 32 && data.len() >= 4 {
        let prefix = u32_from_le_bytes(vstd::slice::slice_subrange(data, 0, 4));
        prefix >= 0x8000_0000
    } else {
        false
    }
}

/// Compress data using LZ4. Compression is skipped (a copy of the input is
/// returned) when it does not shrink the data; a caller tells the two cases
/// apart by comparing lengths.
pub fn compress(data: &[u8]) -> (out: Vec<u8>)
    requires
        compressible_len(data@.len()),
    ensures
        out@ == spec_compress(data@),
        lz4_block_compress(data@).len() < data@.len() ==> out@ == lz4_block_compress(data@),
        lz4_block_compress(data@).len() >= data@.len() ==> out@ == data@,
        out@.len() < data@.len() && data@.len() <= u32::MAX && !decoder_refuses(out@) ==> spec_decompress(out@) == Ok::<
            _,
            DecompressFailed,
        >(data@),
{
    let compressed = lz4_compress_prepend_size(data);
    if compressed.len() < data.len() {
        compressed
    } else {
        vstd::slice::slice_to_vec(data)
    }
}

/// Compression keeps whichever is shorter, for inputs of every length: the
/// LZ4 block whenever it is shorter than the data, the data itself
/// otherwise. So the result is never longer than the data, and it is the
/// block exactly when it is shorter.
pub proof fn lemma_compress_keeps_shorter(data: Seq<u8>)
    ensures
        lz4_block_compress(data).len() < data.len() ==> spec_compress(data) == lz4_block_compress(data),
        lz4_block_compress(data).len() >= data.len() ==> spec_compress(data) == data,
        spec_compress(data).len() <= data.len(),
        spec_compress(data).len() < data.len() <==> lz4_block_compress(data).len() < data.len(),
{
}

/// Compress data using LZ4 unconditionally, so that the result is always a
/// valid size-prefixed block (used for per-chunk streaming).
pub fn compress_always(data: &[u8]) -> (out: Vec<u8>)
    requires
        compressible_len(data@.len()),
    ensures
        out@ == lz4_block_compress(data@),
        data@.len() <= u32::MAX && !decoder_refuses(out@) ==> spec_decompress(out@) == Ok::<_, DecompressFailed>(data@),
{
    lz4_compress_prepend_size(data)
}

/// Decompress LZ4-compressed data.
pub fn decompress(data: &[u8]) -> (out: Result<Vec<u8>, DecompressFailed>)
    ensures
        match out {
            Ok(v) => spec_decompress(data@) == Ok::<_, DecompressFailed>(v@),
            Err(e) => spec_decompress(data@) == Err::<Seq<u8>, _>(e),
        },
{
    if refused_by_decoder(data) {
        return Err(DecompressFailed);
    }
    match lz4_decompress_size_prepended(data) {
        Ok(v) => Ok(v),
        Err(_) => Err(DecompressFailed),
    }
}

/// Whether compression support is built in (it always is).
pub fn is_available() -> (b: bool)
    ensures
        b,
{
    true
}

} // verus!
