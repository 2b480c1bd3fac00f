use aes_gcm::aead::{Aead, KeyInit};
use aes_gcm::{Aes256Gcm, Key, Nonce};
use quickshare_core::compress::{compress, compress_always, decompress, find_long_ff_run, is_available, DecompressFailed};
use quickshare_core::crypto::{decrypt, derive_key, encrypt, encrypt_with_nonce, CryptoError};
use quickshare_core::digest::{hex_lower, FileDigest};
use sha2::{Digest, Sha256};

#[test]
fn compress_shrinks_repetitive_data_and_roundtrips() {
    let data = b"abcabcabc".repeat(200);
    let c = compress(&data);
    assert!(c.len() < data.len());
    assert_ne!(c, data);
    assert_eq!(decompress(&c).unwrap(), data);
}

#[test]
fn compress_keeps_data_that_does_not_shrink() {
    let data = b"xy".to_vec();
    assert_eq!(compress(&data), data);
}

#[test]
fn compress_always_is_a_size_prefixed_block() {
    let data = b"xy".to_vec();
    let c = compress_always(&data);
    assert_eq!(&c[..4], &2u32.to_le_bytes());
    assert_eq!(c, lz4_flex::compress_prepend_size(&data));
    assert_eq!(decompress(&c).unwrap(), data);
}

#[test]
fn decompress_rejects_garbage() {
    assert_eq!(decompress(&[10, 0, 0, 0, 0xF0]), Err(DecompressFailed));
    assert_eq!(decompress(&[1, 0]), Err(DecompressFailed));
}

#[test]
fn compression_is_available() {
    assert!(is_available());
}

#[test]
fn zero_salt_key_is_sha256_of_password() {
    let key = derive_key("secret", &[0u8; 16]);
    let expected: [u8; 32] = Sha256::digest(b"secret").into();
    assert_eq!(key, expected);
}

#[test]
fn salted_key_is_argon2id() {
    let salt = [7u8; 16];
    let key = derive_key("secret", &salt);
    let mut expected = [0u8; 32];
    argon2::Argon2::default().hash_password_into(b"secret", &salt, &mut expected).unwrap();
    assert_eq!(key, expected);
    assert_ne!(key, derive_key("secret", &[0u8; 16]));
}

#[test]
fn encrypt_with_nonce_layout() {
    let key = [3u8; 32];
    let nonce = [9u8; 12];
    let out = encrypt_with_nonce(&key, &nonce, b"hello");
    assert_eq!(out.len(), 12 + 5 + 16);
    assert_eq!(&out[..12], &nonce);
    let cipher = Aes256Gcm::new(Key::<Aes256Gcm>::from_slice(&key));
    let ct = cipher.encrypt(Nonce::from_slice(&nonce), &b"hello"[..]).unwrap();
    assert_eq!(&out[12..], &ct[..]);
}

#[test]
fn encrypt_decrypt_roundtrip() {
    let key = derive_key("pw", &[0u8; 16]);
    let data = b"some file contents".to_vec();
    let sealed = encrypt(&key, &data);
    assert_eq!(sealed.len(), data.len() + 28);
    assert_ne!(&sealed[12..12 + data.len()], &data[..]);
    assert_eq!(decrypt(&key, &sealed).unwrap(), data);
}

#[test]
fn nonces_differ_between_encryptions() {
    let key = [1u8; 32];
    let a = encrypt(&key, b"same");
    let b = encrypt(&key, b"same");
    assert_ne!(a[..12], b[..12]);
}

#[test]
fn decrypt_with_wrong_key_fails() {
    let sealed = encrypt(&[1u8; 32], b"data");
    assert_eq!(decrypt(&[2u8; 32], &sealed), Err(CryptoError::DecryptionFailed));
}

#[test]
fn decrypt_too_short() {
    assert_eq!(decrypt(&[1u8; 32], &[0u8; 27]), Err(CryptoError::TooShort { len: 27 }));
}

#[test]
fn encrypt_empty_plaintext() {
    let key = [5u8; 32];
    let sealed = encrypt(&key, b"");
    assert_eq!(sealed.len(), 28);
    assert_eq!(decrypt(&key, &sealed).unwrap(), Vec::<u8>::new());
}

#[test]
fn file_digest_is_blake3_hex_of_all_pieces() {
    let mut d = FileDigest::new();
    d.update(b"hello ");
    d.update(b"");
    d.update(b"world");
    assert_eq!(d.finish_hex(), blake3::hash(b"hello world").to_hex().to_string());
    assert_eq!(FileDigest::new().finish_hex(), blake3::hash(b"").to_hex().to_string());
}

#[test]
fn hex_is_lower_case_two_digits_per_byte() {
    let mut b = [0u8; 32];
    b[0] = 0xAB;
    b[1] = 0x05;
    b[31] = 0xF0;
    let h = hex_lower(&b);
    assert_eq!(h.len(), 64);
    assert!(h.starts_with("ab05"));
    assert!(h.ends_with("f0"));
}

#[test]
fn long_ff_run_is_refused() {
    let mut data = vec![0u8, 0, 0, 0, 0xF0];
    data.extend(std::iter::repeat(0xFFu8).take(16_843_010));
    assert!(find_long_ff_run(&data));
    assert_eq!(decompress(&data), Err(DecompressFailed));
    assert!(!find_long_ff_run(&[0xFF; 300]));
}
