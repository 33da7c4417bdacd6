use blaze::chunker::{FileChunk, split_into_chunks, reconstruct_file_from_chunks};
use blaze::digest::compute_chunk_hash;
use blaze::config::CHUNK_SIZE;

#[test]
fn test_chunk_computation() {
    let data = b"Hello, world!";
    let hash = compute_chunk_hash(data);
    assert!(!hash.is_empty());
    assert_eq!(hash.len(), 64); // BLAKE3 produces 256-bit hashes (64 hex chars)
}

#[test]
fn test_digest_matches_reference() {
    let data = b"Hello, world!";
    let expected = blake3::hash(data).to_hex().to_string();
    assert_eq!(compute_chunk_hash(data), expected);
    assert_ne!(compute_chunk_hash(data), String::from_utf8_lossy(data));
}

#[test]
fn test_file_chunk_verification() {
    let data = vec![1, 2, 3, 4, 5];
    let chunk = FileChunk::new(data);
    assert!(chunk.verify());

    let mut invalid_chunk = chunk.clone();
    invalid_chunk.data[0] = 99;
    assert!(!invalid_chunk.verify());
}

#[test]
fn test_file_chunking() {
    let content = b"Hello, world! This is a test file.";
    let chunks = split_into_chunks(content, CHUNK_SIZE);
    assert_eq!(chunks.len(), 1); // Small input should be one chunk

    let reconstructed = reconstruct_file_from_chunks(&chunks);
    assert_eq!(reconstructed, content);
}

#[test]
fn test_empty_input_single_empty_chunk() {
    let chunks = split_into_chunks(&[], CHUNK_SIZE);
    assert_eq!(chunks.len(), 1);
    assert_eq!(chunks[0].size, 0);
    assert!(chunks[0].data.is_empty());
    let reconstructed = reconstruct_file_from_chunks(&chunks);
    assert!(reconstructed.is_empty());
}

#[test]
fn test_exact_chunk_size_single_chunk() {
    let content = vec![7u8; CHUNK_SIZE];
    let chunks = split_into_chunks(&content, CHUNK_SIZE);
    assert_eq!(chunks.len(), 1);
    assert_eq!(chunks[0].size, CHUNK_SIZE);
}

#[test]
fn test_chunk_size_plus_one_two_chunks() {
    let content = vec![7u8; CHUNK_SIZE + 1];
    let chunks = split_into_chunks(&content, CHUNK_SIZE);
    assert_eq!(chunks.len(), 2);
    assert_eq!(chunks[0].size, CHUNK_SIZE);
    assert_eq!(chunks[1].size, 1);
}

#[test]
fn test_multi_chunk_reconstruction() {
    let content: Vec<u8> = (0..200000u32).map(|i| (i % 251) as u8).collect();
    let chunks = split_into_chunks(&content, CHUNK_SIZE);
    assert_eq!(chunks.len(), (content.len() + CHUNK_SIZE - 1) / CHUNK_SIZE);
    let reconstructed = reconstruct_file_from_chunks(&chunks);
    assert_eq!(reconstructed, content);
}
