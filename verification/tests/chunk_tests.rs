use quickshare_core::transfer::chunk::{Chunk, ChunkReader};
use sha2::{Digest, Sha256};

fn all_chunks(mut reader: ChunkReader) -> Vec<Chunk> {
    let mut chunks = Vec::new();
    while let Some(c) = reader.next_chunk() {
        chunks.push(c);
    }
    chunks
}

#[test]
fn test_chunk_reader_small() {
    let data = b"hello world";
    let reader = ChunkReader::new(&data[..], 4);
    let chunks = all_chunks(reader);
    assert_eq!(chunks.len(), 3); // 4 + 4 + 3
    assert_eq!(chunks[0].data, b"hell");
    assert_eq!(chunks[1].data, b"o wo");
    assert_eq!(chunks[2].data, b"rld");
    for c in &chunks {
        assert!(c.verify());
    }
}

#[test]
fn test_chunk_reader_exact() {
    let data = b"12345678";
    let reader = ChunkReader::new(&data[..], 4);
    let chunks = all_chunks(reader);
    assert_eq!(chunks.len(), 2);
    assert_eq!(chunks[0].data, b"1234");
    assert_eq!(chunks[1].data, b"5678");
}

#[test]
fn chunks_carry_index_offset_and_sha256() {
    let data = b"hello world";
    let chunks = all_chunks(ChunkReader::new(&data[..], 4));
    assert_eq!(chunks.iter().map(|c| c.index).collect::<Vec<_>>(), vec![0, 1, 2]);
    assert_eq!(chunks.iter().map(|c| c.offset).collect::<Vec<_>>(), vec![0, 4, 8]);
    let expected: [u8; 32] = Sha256::digest(b"hell").into();
    assert_eq!(chunks[0].hash, expected);
}

#[test]
fn chunks_reassemble_to_data() {
    let data: Vec<u8> = (0..1000u32).map(|i| (i % 251) as u8).collect();
    let chunks = all_chunks(ChunkReader::new(&data, 64));
    assert_eq!(chunks.len(), 16);
    let joined: Vec<u8> = chunks.iter().flat_map(|c| c.data.clone()).collect();
    assert_eq!(joined, data);
    assert!(chunks[..15].iter().all(|c| c.data.len() == 64));
    assert_eq!(chunks[15].data.len(), 1000 - 15 * 64);
}

#[test]
fn empty_data_gives_no_chunk_and_stays_done() {
    let mut reader = ChunkReader::new(&[], 4);
    assert!(reader.next_chunk().is_none());
    assert!(reader.next_chunk().is_none());
}

#[test]
fn tampered_chunk_fails_verification() {
    let mut chunks = all_chunks(ChunkReader::new(b"abcdef", 3));
    assert!(chunks[1].verify());
    chunks[1].data[0] ^= 1;
    assert!(!chunks[1].verify());
}

#[test]
fn reading_blocks_numbers_chunks() {
    let mut reader = ChunkReader::new(&[], 4);
    let first = reader.push_read(b"abcd");
    let second = reader.push_read(b"ef");
    assert_eq!(first.len(), 1);
    assert!(second.is_empty());
    let last = reader.collect_chunks();
    assert_eq!(last.len(), 1);
    let (a, b) = (&first[0], &last[0]);
    assert_eq!((a.index, a.offset), (0, 0));
    assert_eq!((b.index, b.offset), (1, 4));
    assert_eq!(b.data, b"ef".to_vec());
    let expected: [u8; 32] = Sha256::digest(b"ef").into();
    assert_eq!(b.hash, expected);
    assert!(reader.collect_chunks().is_empty());
}

#[test]
fn short_reads_give_the_same_chunks() {
    let data: Vec<u8> = (0u8..23).collect();
    let whole = ChunkReader::new(&data, 5).collect_chunks();
    let mut reader = ChunkReader::new(&[], 5);
    let mut pieces = Vec::new();
    for part in [&data[0..1], &data[1..3], &data[3..3], &data[3..12], &data[12..13], &data[13..23]] {
        pieces.extend(reader.push_read(part));
    }
    pieces.extend(reader.collect_chunks());
    assert_eq!(whole.len(), 5);
    assert_eq!(pieces.len(), whole.len());
    for (p, w) in pieces.iter().zip(whole.iter()) {
        assert_eq!((p.index, p.offset, &p.data, p.hash), (w.index, w.offset, &w.data, w.hash));
    }
    let joined: Vec<u8> = pieces.iter().flat_map(|c| c.data.clone()).collect();
    assert_eq!(joined, data);
}

#[test]
fn zero_chunk_size_or_done_reader_cuts_nothing() {
    let mut reader = ChunkReader::new(&[], 0);
    assert!(reader.push_read(b"abcdef").is_empty());
    assert!(reader.collect_chunks().is_empty());
    let mut done = ChunkReader::new(b"ab", 4);
    assert_eq!(done.collect_chunks().len(), 1);
    assert!(done.push_read(b"abcdefgh").is_empty());
    assert!(done.collect_chunks().is_empty());
}
