use blaze::store::{ChunkStore, chunk_path_parts, dedupe_chunks, plan_gc, decode_verified_chunk,
    make_delta_record, parse_delta_record, decode_verified_delta_chunk, count_missing_references};
use blaze::chunker::FileChunk;
use blaze::codec::compress_chunk_data;
use blaze::delta::create_delta;
use blaze::digest::compute_chunk_hash;
use blaze::commit::build_commit;
use blaze::records::{FileRecord, ManifestMap};

#[test]
fn test_chunk_path_parts() {
    let (sub, rest) = chunk_path_parts("ab34ef");
    assert_eq!(sub, "ab");
    assert_eq!(rest, "34ef");
    let (sub, rest) = chunk_path_parts("a");
    assert_eq!(sub, "00");
    assert_eq!(rest, "a");
}

#[test]
fn test_duplicate_files_one_physical_chunk() {
    // three identical payloads plan to a single stored chunk
    let payload = vec![5u8; 5000];
    let chunks = vec![
        FileChunk::new(payload.clone()),
        FileChunk::new(payload.clone()),
        FileChunk::new(payload.clone()),
    ];
    let unique = dedupe_chunks(&chunks);
    assert_eq!(unique.len(), 1);
    assert_eq!(unique[0].data, payload);
}

#[test]
fn test_dedupe_keeps_distinct() {
    let chunks = vec![
        FileChunk::new(b"Chunk 1".to_vec()),
        FileChunk::new(b"Chunk 2".to_vec()),
        FileChunk::new(b"Chunk 3".to_vec()),
        FileChunk::new(b"Chunk 2".to_vec()),
    ];
    let unique = dedupe_chunks(&chunks);
    assert_eq!(unique.len(), 3);
}

#[test]
fn test_gc_plan_spares_active() {
    let present = vec!["aa".to_string(), "bb".to_string(), "cc".to_string()];
    let active = vec!["bb".to_string()];
    let removed = plan_gc(&present, &active);
    assert_eq!(removed, vec!["aa".to_string(), "cc".to_string()]);
}

#[test]
fn test_get_returns_stored_bytes() {
    // store.put followed by get hands back bytes with the same digest
    let data = b"Integrity test data".to_vec();
    let hash = compute_chunk_hash(&data);
    let record = compress_chunk_data(&data).unwrap();
    let loaded = decode_verified_chunk(&hash, &record).unwrap();
    assert_eq!(loaded, data);
}

#[test]
fn test_corrupted_chunk_fails_integrity() {
    let data = b"Integrity test data".to_vec();
    let hash = compute_chunk_hash(&data);
    // a corrupted record must not pass for the chunk
    let corrupted = b"corrupted data".to_vec();
    let result = decode_verified_chunk(&hash, &corrupted);
    assert!(result.is_err());
    // even a well-formed record for other bytes is refused
    let other = compress_chunk_data(b"other bytes").unwrap();
    assert!(decode_verified_chunk(&hash, &other).is_err());
}

#[test]
fn test_delta_record_round_trip() {
    let base = vec![9u8; 2000];
    let mut new_data = base.clone();
    new_data[3] = 1;
    let base_hash = compute_chunk_hash(&base);
    let new_hash = compute_chunk_hash(&new_data);
    let delta = create_delta(&base, &new_data);
    let payload = compress_chunk_data(&delta).unwrap();
    let record = make_delta_record(&base_hash, &payload);
    assert_eq!(record[0], 3);
    let (parsed_hash, parsed_payload) = parse_delta_record(&record).unwrap();
    assert_eq!(parsed_hash, base_hash);
    assert_eq!(parsed_payload, payload);
    let rebuilt = decode_verified_delta_chunk(&new_hash, &base, &parsed_payload).unwrap();
    assert_eq!(rebuilt, new_data);
}

#[test]
fn test_parse_delta_record_rejects_truncated() {
    assert!(parse_delta_record(&[3u8, 97, 98]).is_err());
    assert!(parse_delta_record(&[3u8, 97, 0]).is_err());
}

#[test]
fn test_cache_functionality() {
    let mut store = ChunkStore::new();
    let data = b"Cache test data".to_vec();
    let chunk = FileChunk::new(data.clone());

    store.maybe_cache_chunk(&chunk.hash, chunk.data.clone());
    let (cached_count, used, budget) = store.cache_stats();
    assert!(cached_count > 0);
    assert_eq!(used, data.len());
    assert_eq!(budget, 64 * 1024 * 1024);

    let loaded = store.cache_lookup(&chunk.hash).unwrap();
    assert_eq!(loaded, &data);

    store.clear_cache();
    assert!(store.cache_lookup(&chunk.hash).is_none());
    assert_eq!(store.cache_stats().0, 0);
}

#[test]
fn test_existence_caches() {
    let mut store = ChunkStore::new();
    assert_eq!(store.cached_existence("aa"), None);
    store.mark_exists("aa");
    assert_eq!(store.cached_existence("aa"), Some(true));
    store.mark_missing("aa");
    assert_eq!(store.cached_existence("aa"), Some(false));
    store.mark_exists("aa");
    assert_eq!(store.cached_existence("aa"), Some(true));
}

#[test]
fn test_delta_links() {
    let mut store = ChunkStore::new();
    store.record_delta_link("base1", "childa");
    store.record_delta_link("base1", "childb");
    store.record_delta_link("base2", "childc");
    assert_eq!(store.delta_candidates("base1"), vec!["childa".to_string(), "childb".to_string()]);
    assert_eq!(store.delta_candidates("base2"), vec!["childc".to_string()]);
    assert!(store.delta_candidates("base3").is_empty());
    assert_eq!(store.delta_bases(), vec!["base1".to_string(), "base2".to_string()]);
}

#[test]
fn test_cache_rejects_oversized_entry() {
    // an entry over a quarter of the budget is never admitted
    let mut store = ChunkStore::new();
    let big = vec![0u8; 17 * 1024 * 1024];
    store.maybe_cache_chunk("bighash", big);
    assert!(store.cache_lookup("bighash").is_none());
    assert_eq!(store.cache_stats().1, 0);
}

#[test]
fn test_active_digests_cover_staging_and_commits() {
    let rec = |path: &str, chunk: &str| FileRecord {
        path: path.to_string(),
        chunks: vec![chunk.to_string()],
        size: 1,
        mtime: 0,
        permissions: 0o644,
        is_executable: false,
    };
    let mut committed = ManifestMap::new();
    committed.insert(rec("a", "c1"));
    let commit = build_commit(committed, None, "m", 1, false).unwrap();
    let mut staging = ManifestMap::new();
    staging.insert(rec("b", "c2"));
    staging.insert(rec("c", "c2"));
    let active = blaze::store::active_digests(&vec![commit], &staging);
    let mut sorted = active.clone();
    sorted.sort();
    assert_eq!(sorted, vec!["c1".to_string(), "c2".to_string()]);
}

#[test]
fn test_count_missing_references() {
    let rec = |path: &str, chunks: Vec<&str>| FileRecord {
        path: path.to_string(),
        chunks: chunks.into_iter().map(|c| c.to_string()).collect(),
        size: 1,
        mtime: 0,
        permissions: 0o644,
        is_executable: false,
    };
    let files = vec![rec("a", vec!["c1", "c2"]), rec("b", vec!["c2", "c3"])];
    let present = vec!["c2".to_string()];
    assert_eq!(count_missing_references(&files, &present), 2);
    let all = vec!["c1".to_string(), "c2".to_string(), "c3".to_string()];
    assert_eq!(count_missing_references(&files, &all), 0);
}
