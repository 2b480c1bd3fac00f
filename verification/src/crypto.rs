//! Key derivation and AES-256-GCM encryption of payloads.
use vstd::prelude::*;
use vstd::utf8::*;
use vstd::string::*;
use aes_gcm::aead::{Aead, KeyInit};

verus! {

/// SHA-256 of `data`.
pub uninterp spec fn sha256(data: Seq<u8>) -> [u8; 32];

/// Argon2id (version 0x13, the crate's default parameters: 19 MiB, 2 passes,
/// 1 lane) of `password` with `salt`, 32 output bytes.
pub uninterp spec fn argon2id_default(password: Seq<u8>, salt: Seq<u8>) -> Seq<u8>;

/// AES-256-GCM ciphertext with its 16-byte tag appended, no associated data.
pub uninterp spec fn aes256gcm_seal(key: Seq<u8>, nonce: Seq<u8>, plaintext: Seq<u8>) -> Seq<u8>;

/// AES-256-GCM decryption of a ciphertext with its tag; `None` when authentication fails.
pub uninterp spec fn aes256gcm_open(key: Seq<u8>, nonce: Seq<u8>, ciphertext: Seq<u8>) -> Option<
    Seq<u8>,
>;

/// BLAKE3 of `data`.
pub uninterp spec fn blake3_hash(data: Seq<u8>) -> [u8; 32];

/// The error type of AES-GCM.
#[verifier::external_type_specification]
#[verifier::external_body]
pub struct ExAeadError(aes_gcm::Error);

/// `sha2::Sha256::digest`: the digest is a function of the input alone.
#[verifier::external_body]
pub(crate) fn sha256_digest(data: &[u8]) -> (h: [u8; 32])
    ensures
        h == sha256(data@),
{
    <sha2::Sha256 as sha2::Digest>::digest(data).into()
}

/// `blake3::hash`: the digest is a function of the input alone.
#[verifier::external_body]
pub(crate) fn blake3_digest(data: &[u8]) -> (h: [u8; 32])
    ensures
        h == blake3_hash(data@),
{
    *blake3::hash(data).as_bytes()
}

/// `argon2::Argon2::default().hash_password_into` with a 32-byte output. The
/// crate fails only on a password longer than 0xFFFFFFFF bytes, a salt shorter
/// than 8 bytes or an output outside 4..=0xFFFFFFFF bytes; `requires` leaves
/// the first out and the types fix the others.
#[verifier::external_body]
fn argon2_hash_password(password: &[u8], salt: &[u8; 16]) -> (key: [u8; 32])
    requires
        password@.len() <= 0xFFFF_FFFF,
    ensures
        key@ == argon2id_default(password@, salt@),
{
    let mut key = [0u8; 32];
    argon2::Argon2::default().hash_password_into(password, salt, &mut key).expect(
        "password length, salt length and output length are within the limits",
    );
    key
}

/// `aes_gcm::Aes256Gcm::encrypt` with no associated data. The crate refuses a
/// plaintext longer than 2^36 bytes; `requires` leaves it out. The contract
/// claims the ciphertext is a function of key, nonce and plaintext, is 16
/// bytes longer than the plaintext, and decrypts back to it under the same
/// key and nonce (the defining property of an AEAD).
#[verifier::external_body]
fn aes_gcm_encrypt(key: &[u8; 32], nonce: &[u8; 12], plaintext: &[u8]) -> (ct: Vec<u8>)
    requires
        plaintext@.len() <= 0x10_0000_0000,
    ensures
        ct@ == aes256gcm_seal(key@, nonce@, plaintext@),
        ct@.len() == plaintext@.len() + 16,
        aes256gcm_open(key@, nonce@, ct@) == Some(plaintext@),
{
    let cipher = aes_gcm::Aes256Gcm::new(aes_gcm::Key::<aes_gcm::Aes256Gcm>::from_slice(key));
    cipher.encrypt(aes_gcm::Nonce::from_slice(nonce), plaintext).expect(
        "plaintext is within the AES-GCM limit",
    )
}

/// `aes_gcm::Aes256Gcm::decrypt` with no associated data: success and the
/// plaintext are a function of key, nonce and ciphertext.
#[verifier::external_body]
fn aes_gcm_decrypt(key: &[u8; 32], nonce: &[u8; 12], ciphertext: &[u8]) -> (pt: Result<
    Vec<u8>,
    aes_gcm::Error,
>)
    ensures
        pt matches Ok(p) ==> aes256gcm_open(key@, nonce@, ciphertext@) == Some(p@),
        pt is Err ==> aes256gcm_open(key@, nonce@, ciphertext@) is None,
{
    let cipher = aes_gcm::Aes256Gcm::new(aes_gcm::Key::<aes_gcm::Aes256Gcm>::from_slice(key));
    cipher.decrypt(aes_gcm::Nonce::from_slice(nonce), ciphertext)
}

/// `rand::Rng::fill` on `rand::thread_rng()`: twelve random bytes. Nothing is
/// promised of their values.
#[verifier::external_body]
fn random_nonce() -> (nonce: [u8; 12]) {
    let mut nonce = [0u8; 12];
    rand::Rng::fill(&mut rand::thread_rng(), &mut nonce);
    nonce
}

/// Whether two 32-byte digests are equal.
pub fn hashes_equal(a: &[u8; 32], b: &[u8; 32]) -> (eq: bool)
    ensures
        eq == (*a == *b),
        eq == (a@ == b@),
{
    let mut i: usize = 0;
    while i < 32
        invariant
            i <= 32,
            forall|j: int| 0 <= j < i ==> a@[j] == b@[j],
        decreases 32 - i,
    {
        if a[i] != b[i] {
            assert(a@[i as int] != b@[i as int]);
            assert(a@ != b@);
            return false;
        }
        i = i + 1;
    }
    assert(a@ =~= b@);
    assert(*a =~= *b) by {
        broadcast use vstd::array::group_array_axioms;
    }
    true
}

/// The largest plaintext AES-GCM accepts.
pub const MAX_PLAINTEXT_LEN: u64 = 0x10_0000_0000;

/// Errors of `decrypt`.
#[derive(Debug, Clone, Copy, PartialEq, Eq)]
pub enum CryptoError {
    /// Encrypted data must hold a 12-byte nonce and a 16-byte tag.
    TooShort { len: usize },
    /// Authentication failed: wrong password or corrupted data.
    DecryptionFailed,
}

/// The all-zero salt, which selects the SHA-256 derivation.
pub open spec fn zero_salt() -> Seq<u8> {
    Seq::new(16, |i: int| 0u8)
}

/// The key `derive_key` gives: SHA-256 of the password's UTF-8 bytes for the
/// all-zero salt (compatibility with older peers), Argon2id otherwise.
pub open spec fn spec_derive_key(password: Seq<char>, salt: Seq<u8>) -> Seq<u8> {
    if salt == zero_salt() {
        sha256(encode_utf8(password))@
    } else {
        argon2id_default(encode_utf8(password), salt)
    }
}

/// The key is made from every byte of the password: for the all-zero salt
/// it is the SHA-256 of the password's whole UTF-8 encoding, for any other
/// salt the Argon2id hash of that whole encoding with the salt. So two
/// passwords give the same key whenever their encodings agree, and the key
/// is not cut short to some prefix of the password.
pub proof fn lemma_key_from_whole_password(password: Seq<char>, salt: Seq<u8>)
    ensures
        salt == Seq::new(16, |i: int| 0u8) ==> spec_derive_key(password, salt) == sha256(
            encode_utf8(password),
        )@,
        salt != Seq::new(16, |i: int| 0u8) ==> spec_derive_key(password, salt) == argon2id_default(
            encode_utf8(password),
            salt,
        ),
{
    assert(zero_salt() =~= Seq::new(16, |i: int| 0u8));
}

/// The bytes `encrypt` produces for a given nonce: the nonce, then ciphertext and tag.
pub open spec fn sealed(key: Seq<u8>, nonce: Seq<u8>, plaintext: Seq<u8>) -> Seq<u8> {
    nonce + aes256gcm_seal(key, nonce, plaintext)
}

/// What `decrypt` returns.
pub open spec fn spec_decrypt(key: Seq<u8>, data: Seq<u8>) -> Result<Seq<u8>, CryptoError> {
    if data.len() < 28 {
        Err(CryptoError::TooShort { len: data.len() as usize })
    } else {
        match aes256gcm_open(key, data.subrange(0, 12), data.subrange(12, data.len() as int)) {
            Some(p) => Ok(p),
            None => Err(CryptoError::DecryptionFailed),
        }
    }
}

fn is_zero_salt(salt: &[u8; 16]) -> (b: bool)
    ensures
        b == (salt@ == zero_salt()),
{
    let mut i: usize = 0;
    while i < 16
        invariant
            i <= 16,
            forall|j: int| 0 <= j < i ==> salt@[j] == 0u8,
        decreases 16 - i,
    {
        if salt[i] != 0 {
            assert(salt@[i as int] != zero_salt()[i as int]);
            return false;
        }
        i = i + 1;
    }
    assert(salt@ =~= zero_salt());
    true
}

/// Derive a 256-bit AES key from a password.
///
/// New transfers use Argon2id with a random, per-transfer salt. The all-zero
/// salt keeps interoperability with older peers that used SHA-256.
pub fn derive_key(password: &str, salt: &[u8; 16]) -> (key: [u8; 32])
    requires
        salt@ != zero_salt() ==> encode_utf8(password@).len() <= 0xFFFF_FFFF,
    ensures
        key@ == spec_derive_key(password@, salt@),
        salt@ == Seq::new(16, |i: int| 0u8) ==> key@ == sha256(encode_utf8(password@))@,
        salt@ != Seq::new(16, |i: int| 0u8) ==> key@ == argon2id_default(encode_utf8(password@), salt@),
{
    proof {
        lemma_key_from_whole_password(password@, salt@);
    }
    let bytes = password.as_bytes();
    if is_zero_salt(salt) {
        sha256_digest(bytes)
    } else {
        argon2_hash_password(bytes, salt)
    }
}

fn append_bytes(buf: &mut Vec<u8>, bytes: &[u8])
    ensures
        final(buf)@ == old(buf)@ + bytes@,
{
    let ghost start = buf@;
    let mut i: usize = 0;
    while i < bytes.len()
        invariant
            i <= bytes@.len(),
            buf@ == start + bytes@.subrange(0, i as int),
        decreases bytes@.len() - i,
    {
        buf.push(bytes[i]);
        i = i + 1;
        assert(buf@ =~= start + bytes@.subrange(0, i as int));
    }
    assert(bytes@.subrange(0, i as int) =~= bytes@);
}

/// Encrypt with a given nonce: `[nonce || ciphertext + tag]`. The result
/// decrypts back to the plaintext under the same key.
pub fn encrypt_with_nonce(key: &[u8; 32], nonce: &[u8; 12], plaintext: &[u8]) -> (out: Vec<u8>)
    requires
        plaintext@.len() <= MAX_PLAINTEXT_LEN,
    ensures
        out@ == sealed(key@, nonce@, plaintext@),
        out@.len() == plaintext@.len() + 28,
        spec_decrypt(key@, out@) == Ok::<_, CryptoError>(plaintext@),
{
    let ct = aes_gcm_encrypt(key, nonce, plaintext);
    let mut out: Vec<u8> = Vec::new();
    append_bytes(&mut out, nonce.as_slice());
    append_bytes(&mut out, ct.as_slice());
    assert(out@.subrange(0, 12) =~= nonce@);
    assert(out@.subrange(12, out@.len() as int) =~= ct@);
    out
}

/// Encrypt data with AES-256-GCM under a fresh random nonce.
/// Returns `[12-byte nonce || ciphertext + 16-byte tag]`, which `decrypt`
/// turns back into the plaintext under the same key.
pub fn encrypt(key: &[u8; 32], plaintext: &[u8]) -> (out: Vec<u8>)
    requires
        plaintext@.len() <= MAX_PLAINTEXT_LEN,
    ensures
        out@.len() == plaintext@.len() + 28,
        out@ == sealed(key@, out@.subrange(0, 12), plaintext@),
        spec_decrypt(key@, out@) == Ok::<_, CryptoError>(plaintext@),
{
    let nonce = random_nonce();
    let out = encrypt_with_nonce(key, &nonce, plaintext);
    assert(out@.subrange(0, 12) =~= nonce@);
    out
}

/// Decrypt data produced by `encrypt`: `[12-byte nonce || ciphertext + 16-byte tag]`.
pub fn decrypt(key: &[u8; 32], data: &[u8]) -> (res: Result<Vec<u8>, CryptoError>)
    ensures
        match res {
            Ok(p) => spec_decrypt(key@, data@) == Ok::<_, CryptoError>(p@),
            Err(e) => spec_decrypt(key@, data@) == Err::<Seq<u8>, _>(e),
        },
{
    if data.len() < 12 + 16 {
        return Err(CryptoError::TooShort { len: data.len() });
    }
    let mut nonce = [0u8; 12];
    let mut i: usize = 0;
    while i < 12
        invariant
            i <= 12,
            28 <= data@.len(),
            forall|j: int| 0 <= j < i ==> nonce@[j] == data@[j],
        decreases 12 - i,
    {
        nonce[i] = data[i];
        i = i + 1;
    }
    assert(nonce@ =~= data@.subrange(0, 12));
    let ciphertext = vstd::slice::slice_subrange(data, 12, data.len());
    match aes_gcm_decrypt(key, &nonce, ciphertext) {
        Ok(p) => Ok(p),
        Err(_) => Err(CryptoError::DecryptionFailed),
    }
}

} // verus!
