//! The whole-file BLAKE3 digest recorded for a received file, computed
//! incrementally as the file's bytes are restored, and shown as hex.
use vstd::prelude::*;
use vstd::string::*;
use crate::crypto::blake3_hash;

verus! {

/// An incremental BLAKE3 state.
#[verifier::external_type_specification]
#[verifier::external_body]
pub struct ExBlake3Hasher(blake3::Hasher);

/// The bytes fed to a BLAKE3 state so far.
pub uninterp spec fn hasher_input(h: blake3::Hasher) -> Seq<u8>;

/// `blake3::Hasher::new`: a state that has been fed nothing.
#[verifier::external_body]
fn hasher_new() -> (h: blake3::Hasher)
    ensures
        hasher_input(h) == Seq::<u8>::empty(),
{
    blake3::Hasher::new()
}

/// `blake3::Hasher::update`: feeds `data` after what was fed before.
#[verifier::external_body]
fn hasher_update(h: &mut blake3::Hasher, data: &[u8])
    ensures
        hasher_input(*final(h)) == hasher_input(*old(h)) + data@,
{
    h.update(data);
}

/// `blake3::Hasher::finalize`: as the crate documents, the digest of all
/// the bytes fed, the same as `blake3::hash` of them.
#[verifier::external_body]
fn hasher_finalize(h: &blake3::Hasher) -> (d: [u8; 32])
    ensures
        d == blake3_hash(hasher_input(*h)),
{
    *h.finalize().as_bytes()
}

/// The lower-case hex digit for `n` (below 16).
pub open spec fn hex_char(n: u8) -> char {
    if n < 10 {
        (0x30 + n) as char
    } else {
        (0x57 + n) as char
    }
}

/// Lower-case hex of `bytes`, two digits per byte, high digit first.
pub open spec fn hex_of(bytes: Seq<u8>) -> Seq<char>
    decreases bytes.len(),
{
    if bytes.len() == 0 {
        Seq::empty()
    } else {
        hex_of(bytes.drop_last()) + seq![hex_char(bytes.last() / 16), hex_char(bytes.last() % 16)]
    }
}

fn hex_digit(n: u8) -> (s: &'static str)
    requires
        n < 16,
    ensures
        s@ == seq![hex_char(n)],
{
    proof {
        reveal_strlit("0");
        reveal_strlit("1");
        reveal_strlit("2");
        reveal_strlit("3");
        reveal_strlit("4");
        reveal_strlit("5");
        reveal_strlit("6");
        reveal_strlit("7");
        reveal_strlit("8");
        reveal_strlit("9");
        reveal_strlit("a");
        reveal_strlit("b");
        reveal_strlit("c");
        reveal_strlit("d");
        reveal_strlit("e");
        reveal_strlit("f");
    }
    let s = match n {
        0 => "0",
        1 => "1",
        2 => "2",
        3 => "3",
        4 => "4",
        5 => "5",
        6 => "6",
        7 => "7",
        8 => "8",
        9 => "9",
        10 => "a",
        11 => "b",
        12 => "c",
        13 => "d",
        14 => "e",
        _ => "f",
    };
    assert(s@ =~= seq![hex_char(n)]);
    s
}

/// Lower-case hex of a digest.
pub fn hex_lower(bytes: &[u8; 32]) -> (s: String)
    ensures
        s@ == hex_of(bytes@),
{
    let mut s = String::new();
    let mut i: usize = 0;
    proof {
        assert(bytes@.take(0) =~= Seq::<u8>::empty());
    }
    while i < 32
        invariant
            i <= 32,
            bytes@.len() == 32,
            s@ == hex_of(bytes@.take(i as int)),
        decreases 32 - i,
    {
        let b = bytes[i];
        proof {
            assert(bytes@.take(i + 1).drop_last() =~= bytes@.take(i as int));
            assert(bytes@.take(i + 1).last() == b);
        }
        s.append(hex_digit(b / 16));
        s.append(hex_digit(b % 16));
        i = i + 1;
    }
    proof {
        assert(bytes@.take(32) =~= bytes@);
    }
    s
}

/// The BLAKE3 digest of a whole file, fed piece by piece as its bytes are
/// restored.
pub struct FileDigest {
    hasher: blake3::Hasher,
}

impl FileDigest {
    /// The bytes fed so far.
    pub closed spec fn input(self) -> Seq<u8> {
        hasher_input(self.hasher)
    }

    /// A digest of nothing yet.
    pub fn new() -> (d: Self)
        ensures
            d.input() == Seq::<u8>::empty(),
    {
        FileDigest { hasher: hasher_new() }
    }

    /// Feed the next bytes of the file.
    pub fn update(&mut self, data: &[u8])
        ensures
            final(self).input() == old(self).input() + data@,
    {
        hasher_update(&mut self.hasher, data);
    }

    /// The lower-case hex BLAKE3 digest of all the bytes fed, as recorded
    /// for the received file.
    pub fn finish_hex(&self) -> (s: String)
        ensures
            s@ == hex_of(blake3_hash(self.input())@),
    {
        let d = hasher_finalize(&self.hasher);
        hex_lower(&d)
    }
}

} // verus!
