use quickshare_core::bundle::{create_bundle, extract_bundle, BundleError};

#[test]
fn roundtrip() {
    let files = vec![
        ("a.txt".to_string(), b"hello".to_vec()),
        ("sub/b.txt".to_string(), b"world".to_vec().repeat(100)),
        ("empty.dat".to_string(), vec![]),
    ];
    let blob = create_bundle(&files);
    let extracted = extract_bundle(&blob).unwrap();
    assert_eq!(extracted, files);
}

#[test]
fn invalid_magic() {
    assert!(extract_bundle(b"NOTBUNDLE").is_err());
}

#[test]
fn bundle_layout_is_exact() {
    let files = vec![("ab".to_string(), vec![7u8, 8, 9])];
    let blob = create_bundle(&files);
    let mut expected = b"QSBUNDLE".to_vec();
    expected.extend_from_slice(&1u32.to_le_bytes());
    expected.extend_from_slice(&1u32.to_le_bytes());
    expected.extend_from_slice(&2u32.to_le_bytes());
    expected.extend_from_slice(b"ab");
    expected.extend_from_slice(&3u64.to_le_bytes());
    expected.extend_from_slice(&[7, 8, 9]);
    assert_eq!(blob, expected);
}

#[test]
fn empty_bundle_roundtrip() {
    let files: Vec<(String, Vec<u8>)> = vec![];
    let blob = create_bundle(&files);
    assert_eq!(blob.len(), 16);
    assert_eq!(extract_bundle(&blob).unwrap(), files);
}

#[test]
fn invalid_magic_error_kind() {
    assert_eq!(extract_bundle(b"NOTBUNDLE"), Err(BundleError::InvalidMagic));
}

#[test]
fn short_blob_is_unexpected_end() {
    assert_eq!(extract_bundle(b"QSBUN"), Err(BundleError::UnexpectedEnd));
    assert_eq!(extract_bundle(b"QSBUNDLE\x01\x00"), Err(BundleError::UnexpectedEnd));
}

#[test]
fn unsupported_version() {
    let mut blob = b"QSBUNDLE".to_vec();
    blob.extend_from_slice(&2u32.to_le_bytes());
    blob.extend_from_slice(&0u32.to_le_bytes());
    assert_eq!(extract_bundle(&blob), Err(BundleError::UnsupportedVersion(2)));
}

#[test]
fn truncated_entry_is_unexpected_end() {
    let files = vec![("a".to_string(), b"xyz".to_vec())];
    let blob = create_bundle(&files);
    assert_eq!(extract_bundle(&blob[..blob.len() - 1]), Err(BundleError::UnexpectedEnd));
}

#[test]
fn count_larger_than_entries_is_unexpected_end() {
    let mut blob = b"QSBUNDLE".to_vec();
    blob.extend_from_slice(&1u32.to_le_bytes());
    blob.extend_from_slice(&1u32.to_le_bytes());
    assert_eq!(extract_bundle(&blob), Err(BundleError::UnexpectedEnd));
}

#[test]
fn invalid_utf8_path() {
    let mut blob = b"QSBUNDLE".to_vec();
    blob.extend_from_slice(&1u32.to_le_bytes());
    blob.extend_from_slice(&1u32.to_le_bytes());
    blob.extend_from_slice(&1u32.to_le_bytes());
    blob.push(0xFF);
    blob.extend_from_slice(&0u64.to_le_bytes());
    assert_eq!(extract_bundle(&blob), Err(BundleError::InvalidUtf8Path));
}

#[test]
fn unicode_paths_roundtrip() {
    let files = vec![("目录/文件.txt".to_string(), b"data".to_vec())];
    let blob = create_bundle(&files);
    assert_eq!(extract_bundle(&blob).unwrap(), files);
}

#[test]
fn every_strict_prefix_is_rejected() {
    let files = vec![
        ("a.txt".to_string(), b"hello".to_vec()),
        ("dir/b".to_string(), vec![]),
    ];
    let blob = create_bundle(&files);
    for k in 0..blob.len() {
        assert!(extract_bundle(&blob[..k]).is_err(), "prefix of {k} bytes was accepted");
    }
    assert_eq!(extract_bundle(&blob).unwrap(), files);
}
