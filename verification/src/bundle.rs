//! The bundle format: several (path, data) pairs packed into one blob.
//!
//! Wire format:
//!   [magic:    b"QSBUNDLE"  8 bytes]
//!   [version:  u32 LE       4 bytes]
//!   [count:    u32 LE       4 bytes]
//!   [entries...]
//!     [path_len: u32 LE     4 bytes]
//!     [path:     UTF-8      path_len bytes]
//!     [data_len: u64 LE     8 bytes]
//!     [data:     raw        data_len bytes]
use vstd::prelude::*;
use vstd::bytes::*;
use vstd::utf8::*;
use vstd::string::*;

verus! {

broadcast use vstd::seq_lib::group_seq_properties;

/// Errors reported while reading a bundle.
#[derive(Debug, Clone, Copy, PartialEq, Eq)]
pub enum BundleError {
    /// The blob ends before a field it announces.
    UnexpectedEnd,
    /// The first eight bytes are not the bundle magic.
    InvalidMagic,
    /// The version field holds a version this reader does not know.
    UnsupportedVersion(u32),
    /// An entry's path is not valid UTF-8.
    InvalidUtf8Path,
}

/// The version this crate writes and reads.
pub const BUNDLE_VERSION: u32 = 1;

/// The eight magic bytes, `b"QSBUNDLE"`.
pub open spec fn bundle_magic() -> Seq<u8> {
    seq![0x51u8, 0x53u8, 0x42u8, 0x55u8, 0x4eu8, 0x44u8, 0x4cu8, 0x45u8]
}

/// The files of a bundle as plain values: (path characters, data bytes).
pub open spec fn files_view(files: Seq<(String, Vec<u8>)>) -> Seq<(Seq<char>, Seq<u8>)> {
    files.map_values(|f: (String, Vec<u8>)| (f.0@, f.1@))
}

/// Encoding of one entry. Lengths are written as the writer's `as u32` / `as u64` casts do.
pub open spec fn entry_bytes(path: Seq<char>, data: Seq<u8>) -> Seq<u8> {
    let p = encode_utf8(path);
    spec_u32_to_le_bytes(p.len() as u32) + p + spec_u64_to_le_bytes(data.len() as u64) + data
}

/// Encoding of all entries, in order.
pub open spec fn entries_bytes(files: Seq<(Seq<char>, Seq<u8>)>) -> Seq<u8>
    decreases files.len(),
{
    if files.len() == 0 {
        Seq::empty()
    } else {
        entries_bytes(files.drop_last()) + entry_bytes(files.last().0, files.last().1)
    }
}

/// The full blob that `create_bundle` writes for `files`.
pub open spec fn bundle_bytes(files: Seq<(Seq<char>, Seq<u8>)>) -> Seq<u8> {
    bundle_magic() + spec_u32_to_le_bytes(BUNDLE_VERSION) + spec_u32_to_le_bytes(
        files.len() as u32,
    ) + entries_bytes(files)
}

/// A little-endian u32 read at `pos`.
pub open spec fn le_u32_at(data: Seq<u8>, pos: int) -> u32 {
    spec_u32_from_le_bytes(data.subrange(pos, pos + 4))
}

/// A little-endian u64 read at `pos`.
pub open spec fn le_u64_at(data: Seq<u8>, pos: int) -> u64 {
    spec_u64_from_le_bytes(data.subrange(pos, pos + 8))
}

/// Reading one entry at `pos`: the entry and the position after it.
pub open spec fn parse_entry(data: Seq<u8>, pos: int) -> Result<((Seq<char>, Seq<u8>), int), BundleError> {
    if pos + 4 > data.len() {
        Err(BundleError::UnexpectedEnd)
    } else {
        let path_len = le_u32_at(data, pos) as int;
        let p1 = pos + 4;
        if p1 + path_len > data.len() {
            Err(BundleError::UnexpectedEnd)
        } else {
            let path = data.subrange(p1, p1 + path_len);
            if !valid_utf8(path) {
                Err(BundleError::InvalidUtf8Path)
            } else {
                let p2 = p1 + path_len;
                if p2 + 8 > data.len() {
                    Err(BundleError::UnexpectedEnd)
                } else {
                    let data_len = le_u64_at(data, p2) as int;
                    let p3 = p2 + 8;
                    if p3 + data_len > data.len() {
                        Err(BundleError::UnexpectedEnd)
                    } else {
                        Ok(((decode_utf8(path), data.subrange(p3, p3 + data_len)), p3 + data_len))
                    }
                }
            }
        }
    }
}

/// Reading `count` entries from `pos` on.
pub open spec fn parse_entries(data: Seq<u8>, pos: int, count: nat) -> Result<Seq<(Seq<char>, Seq<u8>)>, BundleError>
    decreases count,
{
    if count == 0 {
        Ok(Seq::empty())
    } else {
        match parse_entry(data, pos) {
            Err(e) => Err(e),
            Ok((entry, next)) => match parse_entries(data, next, (count - 1) as nat) {
                Err(e) => Err(e),
                Ok(rest) => Ok(seq![entry] + rest),
            },
        }
    }
}

/// What `extract_bundle` makes of a blob.
pub open spec fn parse_bundle(data: Seq<u8>) -> Result<Seq<(Seq<char>, Seq<u8>)>, BundleError> {
    if data.len() < 8 {
        Err(BundleError::UnexpectedEnd)
    } else if data.subrange(0, 8) != bundle_magic() {
        Err(BundleError::InvalidMagic)
    } else if data.len() < 12 {
        Err(BundleError::UnexpectedEnd)
    } else if le_u32_at(data, 8) != BUNDLE_VERSION {
        Err(BundleError::UnsupportedVersion(le_u32_at(data, 8)))
    } else if data.len() < 16 {
        Err(BundleError::UnexpectedEnd)
    } else {
        parse_entries(data, 16, le_u32_at(data, 12) as nat)
    }
}

fn magic() -> (m: [u8; 8])
    ensures
        m@ == bundle_magic(),
{
    let m: [u8; 8] = [0x51u8, 0x53u8, 0x42u8, 0x55u8, 0x4eu8, 0x44u8, 0x4cu8, 0x45u8];
    assert(m@ =~= bundle_magic());
    m
}

fn append_bytes(buf: &mut Vec<u8>, bytes: &[u8])
    ensures
        final(buf)@ == old(buf)@ + bytes@,
{
    let ghost start = buf@;
    let mut i: usize = 0;
    while i < bytes.len()
        invariant
            i <= bytes@.len(),
            buf@ == start + bytes@.subrange(0, i as int),
        decreases bytes@.len() - i,
    {
        buf.push(bytes[i]);
        i = i + 1;
        assert(buf@ =~= start + bytes@.subrange(0, i as int));
    }
    assert(bytes@.subrange(0, i as int) =~= bytes@);
}

/// Serialize a list of (path, data) pairs into a single bundle blob.
pub fn create_bundle(files: &[(String, Vec<u8>)]) -> (blob: Vec<u8>)
    ensures
        blob@ == bundle_bytes(files_view(files@)),
{
    let ghost fv = files_view(files@);
    let mut buf: Vec<u8> = Vec::new();
    let m = magic();
    append_bytes(&mut buf, &m);
    let v = u32_to_le_bytes(BUNDLE_VERSION);
    append_bytes(&mut buf, v.as_slice());
    let c = u32_to_le_bytes(files.len() as u32);
    append_bytes(&mut buf, c.as_slice());
    let ghost header = buf@;
    assert(header == bundle_magic() + spec_u32_to_le_bytes(BUNDLE_VERSION) + spec_u32_to_le_bytes(
        fv.len() as u32,
    ));
    let mut i: usize = 0;
    while i < files.len()
        invariant
            i <= files@.len(),
            fv == files_view(files@),
            buf@ == header + entries_bytes(fv.take(i as int)),
        decreases files@.len() - i,
    {
        let path_bytes = files[i].0.as_str().as_bytes();
        let data = &files[i].1;
        let pl = u32_to_le_bytes(path_bytes.len() as u32);
        append_bytes(&mut buf, pl.as_slice());
        append_bytes(&mut buf, path_bytes);
        let dl = u64_to_le_bytes(data.len() as u64);
        append_bytes(&mut buf, dl.as_slice());
        append_bytes(&mut buf, data.as_slice());
        proof {
            assert(fv.take(i + 1).drop_last() =~= fv.take(i as int));
            assert(fv[i as int] == (files@[i as int].0@, files@[i as int].1@));
        }
        i = i + 1;
    }
    assert(fv.take(i as int) =~= fv);
    buf
}


/// `String::from_utf8` (std): `Some` exactly when the bytes are valid UTF-8,
/// and then the string holds the decoded characters.
#[verifier::external_body]
fn string_from_utf8(bytes: Vec<u8>) -> (res: Option<String>)
    ensures
        res is Some <==> valid_utf8(bytes@),
        res matches Some(s) ==> s@ == decode_utf8(bytes@),
{
    String::from_utf8(bytes).ok()
}

fn read_u32_at(data: &[u8], pos: usize) -> (v: u32)
    requires
        pos + 4 <= data@.len(),
    ensures
        v == le_u32_at(data@, pos as int),
{
    let _n = data.len();
    u32_from_le_bytes(vstd::slice::slice_subrange(data, pos, pos + 4))
}

fn read_u64_at(data: &[u8], pos: usize) -> (v: u64)
    requires
        pos + 8 <= data@.len(),
    ensures
        v == le_u64_at(data@, pos as int),
{
    let _n = data.len();
    u64_from_le_bytes(vstd::slice::slice_subrange(data, pos, pos + 8))
}

fn copy_range(data: &[u8], start: usize, end: usize) -> (v: Vec<u8>)
    requires
        start <= end <= data@.len(),
    ensures
        v@ == data@.subrange(start as int, end as int),
{
    vstd::slice::slice_to_vec(vstd::slice::slice_subrange(data, start, end))
}

/// Read one entry at `pos`.
fn extract_entry(data: &[u8], pos: usize) -> (res: Result<((String, Vec<u8>), usize), BundleError>)
    requires
        pos <= data@.len(),
    ensures
        match res {
            Ok((entry, next)) => parse_entry(data@, pos as int) == Ok::<_, BundleError>(
                ((entry.0@, entry.1@), next as int),
            ),
            Err(e) => parse_entry(data@, pos as int) == Err::<((Seq<char>, Seq<u8>), int), _>(e),
        },
{
    let total = data.len();
    if total - pos < 4 {
        return Err(BundleError::UnexpectedEnd);
    }
    let path_len = read_u32_at(data, pos);
    let p1 = pos + 4;
    if (path_len as u64) > ((total - p1) as u64) {
        return Err(BundleError::UnexpectedEnd);
    }
    let p2 = p1 + path_len as usize;
    let path_bytes = copy_range(data, p1, p2);
    let path = match string_from_utf8(path_bytes) {
        Some(s) => s,
        None => {
            return Err(BundleError::InvalidUtf8Path);
        },
    };
    if total - p2 < 8 {
        return Err(BundleError::UnexpectedEnd);
    }
    let data_len = read_u64_at(data, p2);
    let p3 = p2 + 8;
    if data_len > ((total - p3) as u64) {
        return Err(BundleError::UnexpectedEnd);
    }
    let end = p3 + data_len as usize;
    let file_data = copy_range(data, p3, end);
    Ok(((path, file_data), end))
}

/// Deserialize a bundle blob back into a list of (path, data) pairs.
pub fn extract_bundle(data: &[u8]) -> (res: Result<Vec<(String, Vec<u8>)>, BundleError>)
    ensures
        match res {
            Ok(files) => parse_bundle(data@) == Ok::<_, BundleError>(files_view(files@)),
            Err(e) => parse_bundle(data@) == Err::<Seq<(Seq<char>, Seq<u8>)>, _>(e),
        },
{
    let total = data.len();
    if total < 8 {
        return Err(BundleError::UnexpectedEnd);
    }
    let m = magic();
    let mut k: usize = 0;
    while k < 8
        invariant
            k <= 8,
            8 <= data@.len(),
            m@ == bundle_magic(),
            forall|j: int| 0 <= j < k ==> data@[j] == m@[j],
        decreases 8 - k,
    {
        if data[k] != m[k] {
            assert(data@.subrange(0, 8)[k as int] != bundle_magic()[k as int]);
            return Err(BundleError::InvalidMagic);
        }
        k = k + 1;
    }
    assert(data@.subrange(0, 8) =~= bundle_magic());
    if total < 12 {
        return Err(BundleError::UnexpectedEnd);
    }
    let version = read_u32_at(data, 8);
    if version != BUNDLE_VERSION {
        return Err(BundleError::UnsupportedVersion(version));
    }
    if total < 16 {
        return Err(BundleError::UnexpectedEnd);
    }
    let count = read_u32_at(data, 12);
    let mut files: Vec<(String, Vec<u8>)> = Vec::new();
    let mut pos: usize = 16;
    let mut i: u32 = 0;
    while i < count
        invariant
            i <= count,
            pos <= data@.len(),
            count == le_u32_at(data@, 12),
            parse_bundle(data@) == parse_entries(data@, 16, count as nat),
            parse_entries(data@, 16, count as nat) == match parse_entries(
                data@,
                pos as int,
                (count - i) as nat,
            ) {
                Ok(rest) => Ok(files_view(files@) + rest),
                Err(e) => Err(e),
            },
        decreases count - i,
    {
        match extract_entry(data, pos) {
            Ok((entry, next)) => {
                let ghost old_files = files@;
                files.push(entry);
                proof {
                    assert(files_view(files@) =~= files_view(old_files) + seq![
                        (entry.0@, entry.1@),
                    ]);
                    match parse_entries(data@, next as int, (count - i - 1) as nat) {
                        Ok(rest) => {
                            assert(files_view(old_files) + (seq![(entry.0@, entry.1@)] + rest)
                                =~= files_view(files@) + rest);
                        },
                        Err(_) => {},
                    }
                }
                pos = next;
            },
            Err(e) => {
                return Err(e);
            },
        }
        i = i + 1;
    }
    assert(files_view(files@) + Seq::empty() =~= files_view(files@));
    Ok(files)
}


/// The per-entry bounds under which a file survives a write and a read:
/// its path's UTF-8 length fits the u32 field and its data length the u64 field.
pub open spec fn entry_fits(f: (Seq<char>, Seq<u8>)) -> bool {
    &&& encode_utf8(f.0).len() <= u32::MAX
    &&& f.1.len() <= u64::MAX
}

proof fn lemma_entries_bytes_first(files: Seq<(Seq<char>, Seq<u8>)>)
    requires
        files.len() > 0,
    ensures
        entries_bytes(files) == entry_bytes(files[0].0, files[0].1) + entries_bytes(
            files.drop_first(),
        ),
    decreases files.len(),
{
    if files.len() == 1 {
        assert(files.drop_last() =~= Seq::<(Seq<char>, Seq<u8>)>::empty());
        assert(files.drop_first() =~= Seq::<(Seq<char>, Seq<u8>)>::empty());
        assert(entries_bytes(files.drop_last()) == Seq::<u8>::empty());
        assert(files.last() == files[0]);
        assert(entries_bytes(files) =~= entry_bytes(files[0].0, files[0].1));
        assert(entries_bytes(files.drop_first()) == Seq::<u8>::empty());
    } else {
        let init = files.drop_last();
        lemma_entries_bytes_first(init);
        assert(init.drop_first() =~= files.drop_first().drop_last());
        assert(files.drop_first().last() == files.last());
        assert(entries_bytes(files) =~= entry_bytes(files[0].0, files[0].1) + entries_bytes(
            files.drop_first(),
        ));
    }
}

proof fn lemma_parse_entry_encoded(d: Seq<u8>, pos: int, path: Seq<char>, data: Seq<u8>)
    requires
        0 <= pos,
        pos + entry_bytes(path, data).len() <= d.len(),
        d.subrange(pos, pos + entry_bytes(path, data).len()) == entry_bytes(path, data),
        entry_fits((path, data)),
    ensures
        parse_entry(d, pos) == Ok::<_, BundleError>(
            ((path, data), pos + entry_bytes(path, data).len()),
        ),
{
    broadcast use encode_utf8_valid_utf8, encode_utf8_decode_utf8;

    lemma_auto_spec_u32_to_from_le_bytes();
    lemma_auto_spec_u64_to_from_le_bytes();
    let e = entry_bytes(path, data);
    let p = encode_utf8(path);
    let lp = spec_u32_to_le_bytes(p.len() as u32);
    let ld = spec_u64_to_le_bytes(data.len() as u64);
    assert(e == lp + p + ld + data);
    let n = p.len() as int;
    let m = data.len() as int;
    let el = e.len() as int;
    let p1 = pos + 4;
    let p2 = p1 + n;
    let p3 = p2 + 8;
    assert(d.subrange(pos, pos + 4) =~= e.subrange(0, 4));
    assert(e.subrange(0, 4) =~= lp);
    assert(le_u32_at(d, pos) as int == n);
    assert(d.subrange(p1, p2) =~= e.subrange(4, 4 + n));
    assert(e.subrange(4, 4 + n) =~= p);
    assert(d.subrange(p2, p2 + 8) =~= e.subrange(4 + n, 12 + n));
    assert(e.subrange(4 + n, 12 + n) =~= ld);
    assert(le_u64_at(d, p2) as int == m);
    assert(d.subrange(p3, p3 + m) =~= e.subrange(12 + n, el));
    assert(e.subrange(12 + n, el) =~= data);
}

proof fn lemma_parse_entries_encoded(d: Seq<u8>, pos: int, files: Seq<(Seq<char>, Seq<u8>)>)
    requires
        0 <= pos,
        pos + entries_bytes(files).len() <= d.len(),
        d.subrange(pos, pos + entries_bytes(files).len()) == entries_bytes(files),
        forall|i: int| 0 <= i < files.len() ==> entry_fits(#[trigger] files[i]),
    ensures
        parse_entries(d, pos, files.len()) == Ok::<_, BundleError>(files),
    decreases files.len(),
{
    if files.len() == 0 {
        assert(files =~= Seq::<(Seq<char>, Seq<u8>)>::empty());
    } else {
        lemma_entries_bytes_first(files);
        let first = files[0];
        let rest = files.drop_first();
        let e = entry_bytes(first.0, first.1);
        let r = entries_bytes(rest);
        assert(entries_bytes(files) == e + r);
        assert(d.subrange(pos, pos + e.len()) =~= (e + r).subrange(0, e.len() as int));
        assert((e + r).subrange(0, e.len() as int) =~= e);
        assert(entry_fits(files[0]));
        lemma_parse_entry_encoded(d, pos, first.0, first.1);
        assert(d.subrange(pos + e.len(), pos + e.len() + r.len()) =~= (e + r).subrange(
            e.len() as int,
            (e.len() + r.len()) as int,
        ));
        assert((e + r).subrange(e.len() as int, (e.len() + r.len()) as int) =~= r);
        assert forall|i: int| 0 <= i < rest.len() implies entry_fits(#[trigger] rest[i]) by {
            assert(rest[i] == files[i + 1]);
        }
        lemma_parse_entries_encoded(d, pos + e.len(), rest);
        assert(seq![first] + rest =~= files);
    }
}

/// Reading a written bundle gives back exactly the files it was written from,
/// in order, provided the count fits the u32 count field and each entry fits
/// its length fields.
pub proof fn lemma_bundle_roundtrip(files: Seq<(Seq<char>, Seq<u8>)>)
    requires
        files.len() <= u32::MAX,
        forall|i: int| 0 <= i < files.len() ==> entry_fits(#[trigger] files[i]),
    ensures
        parse_bundle(bundle_bytes(files)) == Ok::<_, BundleError>(files),
{
    lemma_auto_spec_u32_to_from_le_bytes();
    let b = bundle_bytes(files);
    let lv = spec_u32_to_le_bytes(BUNDLE_VERSION);
    let lc = spec_u32_to_le_bytes(files.len() as u32);
    let ent = entries_bytes(files);
    assert(b == bundle_magic() + lv + lc + ent);
    assert(b.subrange(0, 8) =~= bundle_magic());
    assert(b.subrange(8, 12) =~= lv);
    assert(b.subrange(12, 16) =~= lc);
    assert(le_u32_at(b, 12) as int == files.len());
    assert(b.subrange(16, 16 + ent.len() as int) =~= ent);
    lemma_parse_entries_encoded(b, 16, files);
}

proof fn lemma_parse_entry_truncated(d: Seq<u8>, pos: int, path: Seq<char>, data: Seq<u8>, k: int)
    requires
        0 <= pos <= k < pos + entry_bytes(path, data).len(),
        pos + entry_bytes(path, data).len() <= d.len(),
        d.subrange(pos, pos + entry_bytes(path, data).len()) == entry_bytes(path, data),
        entry_fits((path, data)),
    ensures
        parse_entry(d.take(k), pos) is Err,
{
    broadcast use encode_utf8_valid_utf8, encode_utf8_decode_utf8;

    lemma_auto_spec_u32_to_from_le_bytes();
    lemma_auto_spec_u64_to_from_le_bytes();
    let t = d.take(k);
    let e = entry_bytes(path, data);
    let p = encode_utf8(path);
    let lp = spec_u32_to_le_bytes(p.len() as u32);
    let ld = spec_u64_to_le_bytes(data.len() as u64);
    assert(e == lp + p + ld + data);
    let n = p.len() as int;
    let m = data.len() as int;
    let p1 = pos + 4;
    let p2 = p1 + n;
    let p3 = p2 + 8;
    if p1 <= k {
        assert(t.subrange(pos, p1) =~= e.subrange(0, 4));
        assert(e.subrange(0, 4) =~= lp);
        assert(le_u32_at(t, pos) as int == n);
        if p2 <= k {
            assert(t.subrange(p1, p2) =~= e.subrange(4, 4 + n));
            assert(e.subrange(4, 4 + n) =~= p);
            if p3 <= k {
                assert(t.subrange(p2, p3) =~= e.subrange(4 + n, 12 + n));
                assert(e.subrange(4 + n, 12 + n) =~= ld);
                assert(le_u64_at(t, p2) as int == m);
            }
        }
    }
}

proof fn lemma_parse_entries_truncated(d: Seq<u8>, pos: int, files: Seq<(Seq<char>, Seq<u8>)>, k: int)
    requires
        0 <= pos <= k < pos + entries_bytes(files).len(),
        pos + entries_bytes(files).len() <= d.len(),
        d.subrange(pos, pos + entries_bytes(files).len()) == entries_bytes(files),
        forall|i: int| 0 <= i < files.len() ==> entry_fits(#[trigger] files[i]),
    ensures
        parse_entries(d.take(k), pos, files.len()) is Err,
    decreases files.len(),
{
    if files.len() == 0 {
        assert(entries_bytes(files).len() == 0);
    } else {
        lemma_entries_bytes_first(files);
        let first = files[0];
        let rest = files.drop_first();
        let e = entry_bytes(first.0, first.1);
        let r = entries_bytes(rest);
        assert(entries_bytes(files) == e + r);
        assert(d.subrange(pos, pos + e.len()) =~= (e + r).subrange(0, e.len() as int));
        assert((e + r).subrange(0, e.len() as int) =~= e);
        assert(entry_fits(files[0]));
        if k < pos + e.len() {
            lemma_parse_entry_truncated(d, pos, first.0, first.1, k);
        } else {
            let t = d.take(k);
            assert(t.subrange(pos, pos + e.len()) =~= e);
            lemma_parse_entry_encoded(t, pos, first.0, first.1);
            assert(d.subrange(pos + e.len(), pos + e.len() + r.len()) =~= (e + r).subrange(
                e.len() as int,
                (e.len() + r.len()) as int,
            ));
            assert((e + r).subrange(e.len() as int, (e.len() + r.len()) as int) =~= r);
            assert forall|i: int| 0 <= i < rest.len() implies entry_fits(#[trigger] rest[i]) by {
                assert(rest[i] == files[i + 1]);
            }
            lemma_parse_entries_truncated(d, pos + e.len(), rest, k);
        }
    }
}

/// A bundle cut short anywhere is refused: every strict prefix of a written
/// bundle fails to read (when the count and each entry fit their length
/// fields), so truncated input never reads as a shorter list of files.
pub proof fn lemma_bundle_prefix_rejected(files: Seq<(Seq<char>, Seq<u8>)>, k: int)
    requires
        files.len() <= u32::MAX,
        forall|i: int| 0 <= i < files.len() ==> entry_fits(#[trigger] files[i]),
        0 <= k < bundle_bytes(files).len(),
    ensures
        parse_bundle(bundle_bytes(files).take(k)) is Err,
{
    lemma_auto_spec_u32_to_from_le_bytes();
    let b = bundle_bytes(files);
    let t = b.take(k);
    let lv = spec_u32_to_le_bytes(BUNDLE_VERSION);
    let lc = spec_u32_to_le_bytes(files.len() as u32);
    let ent = entries_bytes(files);
    assert(b == bundle_magic() + lv + lc + ent);
    if k >= 8 {
        assert(t.subrange(0, 8) =~= bundle_magic());
    }
    if k >= 12 {
        assert(t.subrange(8, 12) =~= lv);
    }
    if k >= 16 {
        assert(t.subrange(12, 16) =~= lc);
        assert(le_u32_at(t, 12) as int == files.len());
        assert(b.subrange(16, 16 + ent.len() as int) =~= ent);
        lemma_parse_entries_truncated(b, 16, files, k);
    }
}

} // verus!
