use quickshare_core::bundle::create_bundle;
use quickshare_core::crypto::{derive_key, CryptoError};
use quickshare_core::pipeline::{
    after_receive, batch_meta, is_streaming, open_payload, open_stream_chunk, prepare_bundle_transfer,
    payload_is_plain, prepare_single_transfer, prepare_stream_chunk, protect_file_data, stream_file_meta,
    AfterReceive, ReceiveError, Received,
};
use quickshare_core::compress::fits_compressor;
use quickshare_core::transfer::chunk::ChunkReader;
use quickshare_core::transfer::receiver::chunk_intact;

fn dir_entries() -> Vec<(String, Vec<u8>)> {
    vec![
        ("a.txt".to_string(), b"hello hello hello hello".to_vec()),
        ("sub/b.bin".to_string(), b"0123456789".repeat(50)),
    ]
}

#[test]
fn bundle_transfer_roundtrip_plain() {
    let entries = dir_entries();
    let (meta, payload) = prepare_bundle_transfer(&entries, "dir", None, 64).unwrap();
    let bundle = create_bundle(&entries);
    assert_eq!(meta.name, "dir");
    assert_eq!(meta.size, bundle.len() as u64);
    assert!(meta.bundle && !meta.stream && !meta.encrypted);
    assert!(meta.compressed);
    assert!(payload.len() < bundle.len());
    assert_eq!(meta.chunk_count, (payload.len() as u64 + 63) / 64);
    match open_payload(&meta, payload, None).unwrap() {
        Received::Files(files) => assert_eq!(files, entries),
        Received::Single(_) => panic!("expected files"),
    }
}

#[test]
fn bundle_transfer_roundtrip_encrypted() {
    let entries = dir_entries();
    let key = derive_key("pw", &[0u8; 16]);
    let (meta, payload) = prepare_bundle_transfer(&entries, "dir", Some(key), 4 * 1024 * 1024).unwrap();
    assert!(meta.encrypted);
    assert_eq!(meta.chunk_count, 1);
    match open_payload(&meta, payload.clone(), Some(key)).unwrap() {
        Received::Files(files) => assert_eq!(files, entries),
        Received::Single(_) => panic!("expected files"),
    }
    assert!(matches!(open_payload(&meta, payload.clone(), None), Err(ReceiveError::MissingPassword)));
    let wrong = derive_key("other", &[0u8; 16]);
    assert!(matches!(
        open_payload(&meta, payload, Some(wrong)),
        Err(ReceiveError::Decrypt(CryptoError::DecryptionFailed))
    ));
}

#[test]
fn incompressible_bundle_is_sent_raw() {
    let entries = vec![("x".to_string(), vec![1u8, 2, 3])];
    let (meta, payload) = prepare_bundle_transfer(&entries, "d", None, 4).unwrap();
    assert!(!meta.compressed);
    assert_eq!(payload, create_bundle(&entries));
}

#[test]
fn single_transfer_roundtrip() {
    let data = b"aaaaaaaaaaaaaaaaaaaaaaaaaaaaaaaaaaaaaaaa".to_vec();
    let (meta, payload) = prepare_single_transfer("f.txt", &data, true, 16);
    assert!(meta.compressed && !meta.bundle && !meta.stream);
    assert_eq!(meta.size, 40);
    match open_payload(&meta, payload, None).unwrap() {
        Received::Single(d) => assert_eq!(d, data),
        Received::Files(_) => panic!("expected a file"),
    }
    let (meta2, payload2) = prepare_single_transfer("f.txt", &data, false, 16);
    assert!(!meta2.compressed);
    assert_eq!(meta2.chunk_count, 3);
    assert_eq!(payload2, data);
}

#[test]
fn corrupt_compressed_payload_is_reported() {
    let (mut meta, _) = prepare_single_transfer("f", b"abc", false, 4);
    meta.compressed = true;
    assert!(matches!(open_payload(&meta, vec![200, 0, 0, 0, 0xF0], None), Err(ReceiveError::Decompress(_))));
}

#[test]
fn corrupt_bundle_is_reported() {
    let (mut meta, _) = prepare_single_transfer("f", b"abc", false, 4);
    meta.bundle = true;
    assert!(matches!(open_payload(&meta, b"NOTBUNDLE".to_vec(), None), Err(ReceiveError::Bundle(_))));
}

#[test]
fn stream_chunks_roundtrip_with_and_without_key() {
    let data = b"stream me stream me stream me".repeat(10);
    let key = derive_key("k", &[0u8; 16]);
    for (k, compress) in [(None, true), (Some(key), true), (Some(key), false), (None, false)] {
        let meta = stream_file_meta("s", data.len() as u64, compress, k.is_some(), 64);
        let mut reader = ChunkReader::new(&data, 64);
        let mut restored = Vec::new();
        while let Some(c) = reader.next_chunk() {
            let (index, offset) = (c.index, c.offset);
            let wire = prepare_stream_chunk(c, compress, k).unwrap();
            assert_eq!((wire.index, wire.offset), (index, offset));
            assert_eq!(wire.hash, *blake3::hash(&wire.data).as_bytes());
            assert!(chunk_intact(&Some(meta.clone()), &wire.hash, &wire.data));
            restored.extend(open_stream_chunk(&meta, wire.data, k).unwrap());
        }
        assert_eq!(restored, data);
    }
}

#[test]
fn uncompressed_stream_chunk_is_only_sealed() {
    let mut reader = ChunkReader::new(b"plain", 8);
    let c = reader.next_chunk().unwrap();
    let wire = prepare_stream_chunk(c, false, None).unwrap();
    assert_eq!(wire.data, b"plain");
}

#[test]
fn stream_meta_estimates_chunks() {
    let m = stream_file_meta("big.iso", 10, true, false, 4);
    assert_eq!(m.chunk_count, 3);
    assert!(m.stream && m.compressed && !m.bundle && !m.encrypted);
    assert!(is_streaming(&m));
    assert_eq!(stream_file_meta("e", 0, false, false, 4).chunk_count, 0);
    assert!(is_streaming(&stream_file_meta("e", 0, false, false, 4)));
    let (single, _) = prepare_single_transfer("w", b"abc", true, 4);
    assert!(!is_streaming(&single));
}

#[test]
fn batch_files_are_sealed_when_keyed() {
    let key = [4u8; 32];
    let sealed = protect_file_data(b"abc".to_vec(), Some(key));
    assert_eq!(sealed.len(), 3 + 28);
    assert_eq!(quickshare_core::crypto::decrypt(&key, &sealed).unwrap(), b"abc");
    assert_eq!(protect_file_data(b"abc".to_vec(), None), b"abc");
}

#[test]
fn batch_meta_totals() {
    let m = batch_meta(&[3, 4, 5], "root");
    assert_eq!(m.total_files, 3);
    assert_eq!(m.total_size, 12);
    assert_eq!(m.root_name, "root");
}

#[test]
fn plain_payload_is_kept_as_is() {
    let (meta, payload) = prepare_single_transfer("f", b"abc", false, 4);
    assert!(payload_is_plain(&meta));
    match open_payload(&meta, payload, None).unwrap() {
        Received::Single(d) => assert_eq!(d, b"abc"),
        Received::Files(_) => panic!("expected a file"),
    }
    let mut m2 = meta.clone();
    m2.encrypted = true;
    assert!(!payload_is_plain(&m2));
}

#[test]
fn chunk_hash_checks() {
    let whole = stream_file_meta("w", 3, false, false, 4);
    let mut not_streamed = whole.clone();
    not_streamed.stream = false;
    let mut reader = ChunkReader::new(b"abc", 4);
    let c = reader.next_chunk().unwrap();
    assert!(chunk_intact(&Some(not_streamed.clone()), &c.hash, &c.data));
    assert!(!chunk_intact(&Some(whole), &c.hash, &c.data));
    assert!(chunk_intact(&None, &c.hash, &c.data));
    assert!(!chunk_intact(&Some(not_streamed), &c.hash, b"abd"));
}

#[test]
fn missing_password_for_streamed_chunk() {
    let meta = stream_file_meta("s", 3, false, true, 4);
    assert!(matches!(open_stream_chunk(&meta, vec![0u8; 40], None), Err(ReceiveError::MissingPassword)));
}

#[test]
fn after_receive_decisions() {
    let (mut m, _) = prepare_single_transfer("f", b"abc", false, 4);
    assert_eq!(after_receive(&m, false), AfterReceive::MovePlain);
    assert_eq!(after_receive(&m, true), AfterReceive::FailCancelled);
    m.encrypted = true;
    assert_eq!(after_receive(&m, false), AfterReceive::Restore);
    let s = stream_file_meta("f", 10, true, false, 4);
    assert_eq!(after_receive(&s, true), AfterReceive::FinishStream);
    assert_eq!(after_receive(&s, false), AfterReceive::FinishStream);
}

#[test]
fn compressor_size_limit() {
    assert!(fits_compressor(0));
    assert!(fits_compressor(1 << 20));
    assert!(!fits_compressor(usize::MAX));
    assert!(!fits_compressor(usize::MAX / 100));
}
