use quickshare_core::transfer::batch::{read_file_frames, BatchError, BatchMeta, BatchReceiver, BatchSender, FileEntry};
use sha2::Digest;
use quickshare_core::transfer::chunk::{Chunk, ChunkReader};
use quickshare_core::transfer::receiver::{classify_header, FileReceiver, ProtocolError, MAX_CHUNK_DATA};
use quickshare_core::transfer::resume::ResumeTracker;
use quickshare_core::transfer::sender::{
    done_header, frame_length, frame_message, pack_header, parse_header, FileSender, CHUNK_TYPE,
    DONE_TYPE, HDR_SIZE,
};
use quickshare_core::types::{ControlMessage, FileMeta};

fn meta(name: &str) -> FileMeta {
    FileMeta {
        name: name.to_string(),
        size: 11,
        chunk_size: 4,
        chunk_count: 3,
        file_hash: [0u8; 32],
        compressed: false,
        bundle: false,
        stream: false,
        encrypted: false,
    }
}

#[test]
fn header_roundtrip_and_layout() {
    let hash = [0xABu8; 32];
    let h = pack_header(CHUNK_TYPE, 7, 4096, 1234, &hash);
    assert_eq!(h.len(), HDR_SIZE);
    assert_eq!(&h[0..4], &1u32.to_le_bytes());
    assert_eq!(&h[4..12], &7u64.to_le_bytes());
    assert_eq!(&h[12..20], &4096u64.to_le_bytes());
    assert_eq!(&h[20..24], &1234u32.to_le_bytes());
    assert_eq!(&h[24..56], &hash);
    assert_eq!(parse_header(&h), (CHUNK_TYPE, 7, 4096, 1234, hash));
}

#[test]
fn done_header_marks_the_end() {
    let h = done_header();
    assert_eq!(&h[0..4], &DONE_TYPE.to_le_bytes());
    assert!(h[4..].iter().all(|&b| b == 0));
    assert!(matches!(classify_header(&h), Ok(None)));
}

#[test]
fn classify_chunk_and_unknown_headers() {
    let h = pack_header(CHUNK_TYPE, 2, 8, 3, &[1u8; 32]);
    match classify_header(&h) {
        Ok(Some(info)) => {
            assert_eq!((info.index, info.offset, info.size), (2, 8, 3));
            assert_eq!(info.hash, [1u8; 32]);
        }
        _ => panic!("expected a chunk"),
    }
    let bad = pack_header(5, 0, 0, 0, &[0u8; 32]);
    assert!(matches!(classify_header(&bad), Err(ProtocolError::UnknownChunkType(5))));
}

#[test]
fn frame_roundtrip() {
    let payload = br#"{"ok":true}"#;
    let framed = frame_message(payload);
    assert_eq!(framed.len(), 4 + payload.len());
    let mut prefix = [0u8; 4];
    prefix.copy_from_slice(&framed[..4]);
    assert_eq!(frame_length(&prefix) as usize, payload.len());
    assert_eq!(&framed[4..], &payload[..]);
}

#[test]
fn sender_counts_bytes_and_writes_headers() {
    let mut sender = FileSender::new(meta("f.bin"));
    match sender.handshake() {
        ControlMessage::TransferRequest { file_meta, .. } => assert_eq!(file_meta.name, "f.bin"),
        _ => panic!("expected a request"),
    }
    let mut reader = ChunkReader::new(b"hello world", 4);
    let mut headers = Vec::new();
    while let Some(c) = reader.next_chunk() {
        headers.push(sender.send_chunk(&c));
    }
    assert_eq!(sender.bytes_sent(), 11);
    assert_eq!(parse_header(&headers[2]).3, 3);
    assert_eq!(parse_header(&headers[1]).2, 4);
    assert_eq!(sender.finish(), done_header());
}

#[test]
fn receiver_handshake_accepts_requests_only() {
    let mut r = FileReceiver::new();
    let req = FileSender::new(meta("x")).handshake();
    match r.handshake(req) {
        Ok(ControlMessage::TransferAccept { received_chunks, .. }) => assert!(received_chunks.is_empty()),
        _ => panic!("expected accept"),
    }
    assert_eq!(r.file_meta().as_ref().unwrap().name, "x");
    let mut r2 = FileReceiver::new();
    let done = ControlMessage::TransferDone { transfer_id: uuid::Uuid::nil() };
    assert!(matches!(r2.handshake(done), Err(ProtocolError::UnexpectedMessage)));
    let mut reader = ChunkReader::new(b"hello world", 4);
    let c = reader.next_chunk().unwrap();
    let info = r.recv_chunk(&FileSender::new(meta("x")).send_chunk(&c)).unwrap().unwrap();
    assert_eq!(r.accept_data(&info, c.data.clone()).unwrap(), b"hell");
    assert_eq!(r.bytes_received(), 4);
    assert_eq!(r.accept_data(&info, b"hel".to_vec()), Err(ProtocolError::Truncated));
    assert_eq!(r.accept_data(&info, b"help".to_vec()), Err(ProtocolError::HashMismatch(0)));
    assert_eq!(r.bytes_received(), 4);
}

#[test]
fn chunk_from_sender_verifies_at_receiver() {
    let mut reader = ChunkReader::new(b"abcdefgh", 8);
    let c: Chunk = reader.next_chunk().unwrap();
    let h = FileSender::new(meta("y")).send_chunk(&c);
    let info = classify_header(&h).unwrap().unwrap();
    assert_eq!(info.hash, c.hash);
    assert!(c.verify());
}

#[test]
fn batch_sender_body_and_stats() {
    let bm = BatchMeta { total_files: 1, total_size: 6, root_name: "dir".to_string() };
    let mut s = BatchSender::new(bm, 4).with_compression(false);
    assert_eq!(s.meta().root_name, "dir");
    let f = s.send_file("a/b.txt", b"abcdef");
    assert_eq!(f.entry.relative_path, "a/b.txt");
    assert_eq!(f.entry.size, 6);
    assert!(!f.entry.compressed);
    // two chunk frames (4 + 2 bytes) and the end marker
    assert_eq!(f.body.len(), 56 + 4 + 56 + 2 + 56);
    let mut h = [0u8; 56];
    h.copy_from_slice(&f.body[..56]);
    assert_eq!(parse_header(&h).3, 4);
    assert_eq!(&f.body[56..60], b"abcd");
    h.copy_from_slice(&f.body[f.body.len() - 56..]);
    assert_eq!(parse_header(&h).0, DONE_TYPE);
    assert_eq!(f.payload_len, 6);
    assert_eq!(s.stats(), (0, 0));
    s.file_sent(&f);
    assert_eq!(s.stats(), (1, 6));
}

#[test]
fn batch_compression_roundtrip() {
    let data = b"zzzzzzzzzz".repeat(100);
    let bm = BatchMeta { total_files: 1, total_size: data.len() as u64, root_name: "r".to_string() };
    let mut s = BatchSender::new(bm.clone(), 1 << 20).with_compression(true);
    let f = s.send_file("z.txt", &data);
    assert!(f.entry.compressed);
    let payload_len = f.body.len() - 2 * 56;
    assert_eq!(f.payload_len, payload_len as u64);
    assert!(s.is_compressing());
    let mut r = BatchReceiver::new();
    assert!(r.handshake(bm).ok);
    let (path, restored) = r.recv_file(f.entry.clone(), &f.body).unwrap();
    assert_eq!(path, "z.txt");
    assert_eq!(restored, data);
    assert_eq!(r.bytes_received(), payload_len as u64);
}

#[test]
fn batch_roundtrip_uncompressed_many_chunks() {
    let bm = BatchMeta { total_files: 1, total_size: 10, root_name: "r".to_string() };
    let mut s = BatchSender::new(bm, 3);
    let f = s.send_file("p", b"0123456789");
    let mut r = BatchReceiver::new();
    assert_eq!(r.recv_file(f.entry.clone(), &f.body).unwrap(), ("p".to_string(), b"0123456789".to_vec()));
    assert_eq!(r.bytes_received(), 10);
    assert_eq!(read_file_frames(&f.body).unwrap(), b"0123456789");
}

#[test]
fn batch_receiver_rejects_corrupted_chunk() {
    let bm = BatchMeta { total_files: 1, total_size: 6, root_name: "r".to_string() };
    let mut s = BatchSender::new(bm, 4);
    let f = s.send_file("p", b"abcdef");
    let mut body = f.body.clone();
    body[56 + 4 + 56] ^= 0x01; // first byte of the second chunk's data
    let mut r = BatchReceiver::new();
    assert_eq!(
        r.recv_file(f.entry.clone(), &body),
        Err(BatchError::Protocol(ProtocolError::HashMismatch(1)))
    );
    assert_eq!(r.bytes_received(), 0);
    assert_eq!(r.recv_file(f.entry.clone(), &f.body[..56 + 4 + 56 + 1]), Err(BatchError::Protocol(ProtocolError::Truncated)));
    let bad = pack_header(7, 0, 0, 0, &[0u8; 32]);
    assert_eq!(r.recv_file(f.entry.clone(), &bad), Err(BatchError::Protocol(ProtocolError::UnknownChunkType(7))));
}

#[test]
fn batch_receiver_reports_bad_compressed_data() {
    let entry = FileEntry { relative_path: "q".to_string(), size: 3, compressed: true };
    let data = vec![9u8, 9];
    let hash: [u8; 32] = sha2::Sha256::digest(&data).into();
    let mut body = pack_header(CHUNK_TYPE, 0, 0, 2, &hash).to_vec();
    body.extend_from_slice(&data);
    body.extend_from_slice(&done_header());
    let mut r = BatchReceiver::new();
    assert!(matches!(r.recv_file(entry, &body), Err(BatchError::Decompress(_))));
    assert_eq!(r.bytes_received(), 2);
}

#[test]
fn resume_tracker_lists_sorted_unique() {
    let mut t = ResumeTracker::new();
    assert!(!t.has(3));
    t.mark_received(5);
    t.mark_received(1);
    t.mark_received(5);
    t.mark_received(3);
    assert!(t.has(3) && t.has(5) && !t.has(4));
    assert_eq!(t.received_chunks(), vec![1, 3, 5]);
}

#[test]
fn chunk_larger_than_cap_is_refused() {
    assert_eq!(MAX_CHUNK_DATA, 8 * 1024 * 1024);
    let ok = pack_header(CHUNK_TYPE, 0, 0, MAX_CHUNK_DATA, &[0u8; 32]);
    assert!(matches!(classify_header(&ok), Ok(Some(info)) if info.size == 8 * 1024 * 1024));
    let big = pack_header(CHUNK_TYPE, 0, 0, MAX_CHUNK_DATA + 1, &[0u8; 32]);
    assert_eq!(classify_header(&big), Err(ProtocolError::ChunkTooLarge(MAX_CHUNK_DATA + 1)));
    assert_eq!(read_file_frames(&big), Err(ProtocolError::ChunkTooLarge(MAX_CHUNK_DATA + 1)));
}
